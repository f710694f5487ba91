//! The `must-not-overlap`, `must-not-overlap-with` and
//! `must-not-self-overlap` rules.

use vstd::prelude::*;

use crate::coord::{Coord, Segment};
use crate::geometry::{
    clone_coord_vec, explode_linestrings, ls_closed, ls_segments, ls_views, ls_wf, LineString,
    Point, Polygon,
};
use crate::rat::{spec_sweep_of_coord, SweepPoint};
use crate::result::{TopologyError, TopologyResult};
use crate::sweep::{
    intersections, no_dups, pair_done, pair_overlap, push_unique_seg, push_unique_sweep,
};
use i_overlay::i_float::int::point::IntPoint;

verus! {

/// Two distinct input points share the coordinate `c`.
pub open spec fn dup_coord(ps: Seq<Point>, c: Coord) -> bool {
    exists|i: int, j: int|
        0 <= i < j < ps.len() && (#[trigger] ps[i]).coord == c && (#[trigger] ps[j]).coord == c
}

/// [`dup_coord`] restricted to the pairs before `(i, j)`.
pub open spec fn dup_coord_upto(ps: Seq<Point>, i: int, j: int, c: Coord) -> bool {
    exists|a: int, b: int|
        0 <= a < b < ps.len() && pair_done(a, b, i, j) && (#[trigger] ps[a]).coord == c && (
        #[trigger] ps[b]).coord == c
}

/// Report every coordinate shared by two or more distinct input points.
///
/// The verdict is `Valid` exactly when all input points have pairwise
/// distinct coordinates. In an invalid verdict the single point bucket
/// holds each duplicated coordinate exactly once.
pub fn must_not_overlap_points(points: Vec<Point>) -> (r: TopologyResult)
    ensures
        r is Valid <==> (forall|i: int, j: int|
            0 <= i < j < points@.len() ==> (#[trigger] points@[i]).coord != (
            #[trigger] points@[j]).coord),
        r is Errors ==> {
            let v = r->Errors_0@;
            &&& v.len() == 1
            &&& v[0] is Point
            &&& no_dups(v[0]->Point_0@)
            &&& v[0]->Point_0@.len() > 0
            &&& forall|c: Coord| #[trigger]
                v[0]->Point_0@.contains(spec_sweep_of_coord(c)) <==> dup_coord(points@, c)
            &&& forall|p: SweepPoint| #[trigger]
                v[0]->Point_0@.contains(p) ==> exists|c: Coord| p == spec_sweep_of_coord(c)
        },
{
    let n: usize = points.len();
    let mut dups: Vec<SweepPoint> = Vec::new();
    let mut i: usize = 0;
    while i < n
        invariant
            n == points@.len(),
            0 <= i <= n,
            forall|c: Coord| #[trigger]
                dups@.contains(spec_sweep_of_coord(c)) <==> dup_coord_upto(
                    points@,
                    i as int,
                    i as int + 1,
                    c,
                ),
            forall|p: SweepPoint| #[trigger]
                dups@.contains(p) ==> exists|c: Coord| p == spec_sweep_of_coord(c),
            no_dups(dups@),
        decreases n - i,
    {
        let mut j: usize = i + 1;
        while j < n
            invariant
                n == points@.len(),
                0 <= i < n,
                i + 1 <= j <= n,
                forall|c: Coord| #[trigger]
                    dups@.contains(spec_sweep_of_coord(c)) <==> dup_coord_upto(
                        points@,
                        i as int,
                        j as int,
                        c,
                    ),
                forall|p: SweepPoint| #[trigger]
                    dups@.contains(p) ==> exists|c: Coord| p == spec_sweep_of_coord(c),
                no_dups(dups@),
            decreases n - j,
        {
            if points[i].coord == points[j].coord {
                push_unique_sweep(&mut dups, SweepPoint::from_coord(points[i].coord));
            }
            proof {
                let pi = i as int;
                let pj = j as int;
                assert forall|c: Coord| #[trigger]
                    dups@.contains(spec_sweep_of_coord(c)) implies dup_coord_upto(
                    points@,
                    pi,
                    pj + 1,
                    c,
                ) by {
                    if points@[pi].coord == points@[pj].coord && c == points@[pi].coord {
                        assert(pair_done(pi, pj, pi, pj + 1));
                    } else {
                        assert(dup_coord_upto(points@, pi, pj, c));
                        let (a, b) = choose|a: int, b: int|
                            0 <= a < b < points@.len() && pair_done(a, b, pi, pj) && (
                            #[trigger] points@[a]).coord == c && (#[trigger] points@[b]).coord
                                == c;
                        assert(pair_done(a, b, pi, pj + 1));
                    }
                }
                assert forall|c: Coord| dup_coord_upto(points@, pi, pj + 1, c) implies #[trigger]
                    dups@.contains(spec_sweep_of_coord(c)) by {
                    let (a, b) = choose|a: int, b: int|
                        0 <= a < b < points@.len() && pair_done(a, b, pi, pj + 1) && (
                        #[trigger] points@[a]).coord == c && (#[trigger] points@[b]).coord == c;
                    if a == pi && b == pj {
                    } else {
                        assert(pair_done(a, b, pi, pj));
                        assert(dup_coord_upto(points@, pi, pj, c));
                    }
                }
            }
            j = j + 1;
        }
        proof {
            let pi = i as int;
            assert forall|c: Coord|
                dup_coord_upto(points@, pi, n as int, c) == dup_coord_upto(
                    points@,
                    pi + 1,
                    pi + 2,
                    c,
                ) by {
                assert forall|a: int, b: int|
                    a < b < n implies (#[trigger] pair_done(a, b, pi, n as int) == pair_done(
                        a,
                        b,
                        pi + 1,
                        pi + 2,
                    )) by {}
            }
        }
        i = i + 1;
    }
    proof {
        assert forall|c: Coord|
            dup_coord_upto(points@, n as int, n as int + 1, c) == dup_coord(points@, c) by {
            assert forall|a: int, b: int|
                0 <= a < b < n implies #[trigger] pair_done(a, b, n as int, n as int + 1) by {}
        }
    }
    if dups.len() == 0 {
        proof {
            assert forall|i: int, j: int|
                0 <= i < j < points@.len() implies (#[trigger] points@[i]).coord != (
            #[trigger] points@[j]).coord by {
                if points@[i].coord == points@[j].coord {
                    assert(dup_coord(points@, points@[i].coord));
                    assert(dups@.contains(spec_sweep_of_coord(points@[i].coord)));
                }
            }
        }
        TopologyResult::Valid
    } else {
        proof {
            let c0 = choose|c: Coord| dups@[0] == spec_sweep_of_coord(c);
            assert(dups@.contains(dups@[0]));
            assert(dup_coord(points@, c0));
        }
        let mut errors: Vec<TopologyError> = Vec::new();
        errors.push(TopologyError::Point(dups));
        TopologyResult::Errors(errors)
    }
}

/// A point of `ps` and a point of `os` share the coordinate `c`.
pub open spec fn cross_dup_coord(ps: Seq<Point>, os: Seq<Point>, c: Coord) -> bool {
    (exists|i: int| 0 <= i < ps.len() && (#[trigger] ps[i]).coord == c) && (exists|j: int|
        0 <= j < os.len() && (#[trigger] os[j]).coord == c)
}

/// Report every coordinate of `points` that also occurs in `others`.
///
/// The verdict is `Valid` exactly when no input point shares its coordinate
/// with a point of `others`. In an invalid verdict the single point bucket
/// holds each shared coordinate exactly once.
pub fn must_not_overlap_with_points(points: Vec<Point>, others: Vec<Point>) -> (r: TopologyResult)
    ensures
        r is Valid <==> (forall|i: int, j: int|
            0 <= i < points@.len() && 0 <= j < others@.len() ==> (#[trigger] points@[i]).coord
                != (#[trigger] others@[j]).coord),
        r is Errors ==> {
            let v = r->Errors_0@;
            &&& v.len() == 1
            &&& v[0] is Point
            &&& no_dups(v[0]->Point_0@)
            &&& v[0]->Point_0@.len() > 0
            &&& forall|c: Coord| #[trigger]
                v[0]->Point_0@.contains(spec_sweep_of_coord(c)) <==> cross_dup_coord(
                    points@,
                    others@,
                    c,
                )
            &&& forall|p: SweepPoint| #[trigger]
                v[0]->Point_0@.contains(p) ==> exists|c: Coord| p == spec_sweep_of_coord(c)
        },
{
    let n: usize = points.len();
    let m: usize = others.len();
    let mut dups: Vec<SweepPoint> = Vec::new();
    let mut i: usize = 0;
    while i < n
        invariant
            n == points@.len(),
            m == others@.len(),
            0 <= i <= n,
            forall|c: Coord| #[trigger]
                dups@.contains(spec_sweep_of_coord(c)) <==> cross_dup_coord(
                    points@.take(i as int),
                    others@,
                    c,
                ),
            forall|p: SweepPoint| #[trigger]
                dups@.contains(p) ==> exists|c: Coord| p == spec_sweep_of_coord(c),
            no_dups(dups@),
        decreases n - i,
    {
        let mut found: bool = false;
        let mut j: usize = 0;
        while j < m
            invariant
                n == points@.len(),
                m == others@.len(),
                0 <= i < n,
                0 <= j <= m,
                found <==> (exists|b: int|
                    0 <= b < j && (#[trigger] others@[b]).coord == points@[i as int].coord),
            decreases m - j,
        {
            if others[j].coord == points[i].coord {
                found = true;
            }
            j = j + 1;
        }
        if found {
            push_unique_sweep(&mut dups, SweepPoint::from_coord(points[i].coord));
        }
        proof {
            let pi = i as int;
            let prefix = points@.take(pi);
            let next = points@.take(pi + 1);
            assert(next[pi] == points@[pi]);
            assert forall|c: Coord| #[trigger]
                dups@.contains(spec_sweep_of_coord(c)) implies cross_dup_coord(
                next,
                others@,
                c,
            ) by {
                if found && c == points@[pi].coord {
                } else {
                    assert(cross_dup_coord(prefix, others@, c));
                    let a = choose|a: int| 0 <= a < prefix.len() && (#[trigger] prefix[a]).coord
                        == c;
                    assert(next[a] == prefix[a]);
                }
            }
            assert forall|c: Coord| cross_dup_coord(next, others@, c) implies #[trigger]
                dups@.contains(spec_sweep_of_coord(c)) by {
                let a = choose|a: int| 0 <= a < next.len() && (#[trigger] next[a]).coord == c;
                if a == pi {
                    assert(found);
                } else {
                    assert(prefix[a] == next[a]);
                    assert(cross_dup_coord(prefix, others@, c));
                }
            }
        }
        i = i + 1;
    }
    proof {
        assert(points@.take(n as int) =~= points@);
    }
    if dups.len() == 0 {
        proof {
            assert forall|i: int, j: int|
                0 <= i < points@.len() && 0 <= j < others@.len() implies (
            #[trigger] points@[i]).coord != (#[trigger] others@[j]).coord by {
                if points@[i].coord == others@[j].coord {
                    assert(cross_dup_coord(points@, others@, points@[i].coord));
                    assert(dups@.contains(spec_sweep_of_coord(points@[i].coord)));
                }
            }
        }
        TopologyResult::Valid
    } else {
        proof {
            let c0 = choose|c: Coord| dups@[0] == spec_sweep_of_coord(c);
            assert(dups@.contains(dups@[0]));
            assert(cross_dup_coord(points@, others@, c0));
        }
        let mut errors: Vec<TopologyError> = Vec::new();
        errors.push(TopologyError::Point(dups));
        TopologyResult::Errors(errors)
    }
}

/// Turn segments into two-coordinate linestrings.
pub fn segments_to_linestrings(segs: &Vec<Segment>) -> (r: Vec<LineString>)
    ensures
        r@.len() == segs@.len(),
        forall|k: int| 0 <= k < segs@.len() ==> r@[k]@ == seq![segs@[k].a, segs@[k].b],
        crate::sweep::segs_wf(segs@) ==> forall|k: int|
            0 <= k < r@.len() ==> (#[trigger] r@[k]).wf(),
{
    let mut out: Vec<LineString> = Vec::new();
    let mut i: usize = 0;
    while i < segs.len()
        invariant
            0 <= i <= segs@.len(),
            out@.len() == i,
            forall|k: int| 0 <= k < i ==> out@[k]@ == seq![segs@[k].a, segs@[k].b],
        decreases segs@.len() - i,
    {
        out.push(LineString::from_segment(&segs[i]));
        i = i + 1;
    }
    proof {
        if crate::sweep::segs_wf(segs@) {
            assert forall|k: int| 0 <= k < out@.len() implies (#[trigger] out@[k]).wf() by {
                assert(segs@[k].wf());
                assert(out@[k]@ == seq![segs@[k].a, segs@[k].b]);
            }
        }
    }
    out
}

/// Report every maximal collinear overlap between two distinct segments of
/// the input linestrings, as a two-coordinate linestring.
///
/// The verdict is `Valid` exactly when no two distinct segments share a
/// collinear interval of positive length.
#[verifier::rlimit(100)]
#[verifier::spinoff_prover]
pub fn must_not_overlap_linestrings(linestrings: Vec<LineString>) -> (r: TopologyResult)
    requires
        forall|i: int| 0 <= i < linestrings@.len() ==> (#[trigger] linestrings@[i]).wf(),
    ensures
        r is Valid <==> (forall|s: Segment|
            !pair_overlap(
                crate::geometry::flat_segments(ls_views(linestrings@)),
                s,
            )),
        r is Errors ==> {
            let segs = crate::geometry::flat_segments(ls_views(linestrings@));
            let v = r->Errors_0@;
            &&& v.len() == 1
            &&& v[0] is LineString
            &&& v[0]->LineString_0@.len() > 0
            &&& distinct_ls_views(v[0]->LineString_0@)
            &&& forall|k: int|
                0 <= k < v[0]->LineString_0@.len() ==> exists|s: Segment|
                    pair_overlap(segs, s) && (#[trigger] v[0]->LineString_0@[k])@ == seq![
                        s.a,
                        s.b,
                    ]
            &&& forall|s: Segment| #[trigger]
                pair_overlap(segs, s) ==> exists|k: int|
                    0 <= k < v[0]->LineString_0@.len() && (#[trigger] v[0]->LineString_0@[k])@
                        == seq![s.a, s.b]
        },
{
    let segs = explode_linestrings(&linestrings);
    let (overlaps, _proper, _improper) = intersections(&segs);
    let ghost pred = |s2: Segment|
        pair_overlap(crate::geometry::flat_segments(ls_views(linestrings@)), s2);
    proof {
        assert forall|t: Segment| #[trigger] overlaps@.contains(t) <==> pred(t) by {
            assert(pred(t) == pair_overlap(segs@, t));
        }
    }
    let r = segments_bucket(overlaps, Ghost(pred));
    proof {
        assert forall|t: Segment|
            pred(t) == pair_overlap(
                crate::geometry::flat_segments(ls_views(linestrings@)),
                t,
            ) by {}
    }
    r
}


/// No two linestrings of the sequence have the same coordinate run.
pub open spec fn distinct_ls_views(v: Seq<LineString>) -> bool {
    forall|k1: int, k2: int| 0 <= k1 < k2 < v.len() ==> (#[trigger] v[k1])@ != (#[trigger] v[k2])@
}

/// Build the verdict for a set of offending segments: `Valid` for the empty
/// set, else a single linestring bucket with one two-coordinate linestring
/// per segment.
#[verifier::rlimit(100)]
#[verifier::spinoff_prover]
pub fn segments_bucket(reported: Vec<Segment>, Ghost(pred): Ghost<spec_fn(Segment) -> bool>) -> (r:
    TopologyResult)
    requires
        forall|t: Segment| #[trigger] reported@.contains(t) <==> pred(t),
        no_dups(reported@),
    ensures
        r is Valid <==> (forall|t: Segment| !(#[trigger] pred(t))),
        r is Errors ==> {
            let v = r->Errors_0@;
            &&& v.len() == 1
            &&& v[0] is LineString
            &&& v[0]->LineString_0@.len() > 0
            &&& distinct_ls_views(v[0]->LineString_0@)
            &&& forall|k: int|
                0 <= k < v[0]->LineString_0@.len() ==> exists|t: Segment|
                    pred(t) && (#[trigger] v[0]->LineString_0@[k])@ == seq![t.a, t.b]
            &&& forall|t: Segment| #[trigger]
                pred(t) ==> exists|k: int|
                    0 <= k < v[0]->LineString_0@.len() && (#[trigger] v[0]->LineString_0@[k])@
                        == seq![t.a, t.b]
        },
{
    if reported.len() == 0 {
        proof {
            assert forall|t: Segment| !(#[trigger] pred(t)) by {
                if pred(t) {
                    assert(reported@.contains(t));
                }
            }
        }
        TopologyResult::Valid
    } else {
        let lines = segments_to_linestrings(&reported);
        proof {
            assert(reported@.contains(reported@[0]));
            lemma_lines_distinct(reported@, lines@);
            assert forall|t: Segment| #[trigger] pred(t) implies exists|k: int|
                0 <= k < lines@.len() && (#[trigger] lines@[k])@ == seq![t.a, t.b] by {
                assert(reported@.contains(t));
                let k = choose|k: int| 0 <= k < reported@.len() && reported@[k] == t;
                assert(lines@[k]@ == seq![t.a, t.b]);
            }
            assert forall|k: int| 0 <= k < lines@.len() implies exists|t: Segment|
                pred(t) && (#[trigger] lines@[k])@ == seq![t.a, t.b] by {
                assert(reported@.contains(reported@[k]));
                assert(lines@[k]@ == seq![reported@[k].a, reported@[k].b]);
            }
        }
        let mut errors: Vec<TopologyError> = Vec::new();
        errors.push(TopologyError::LineString(lines));
        TopologyResult::Errors(errors)
    }
}

/// Two-coordinate linestrings made of pairwise distinct segments have
/// pairwise distinct coordinate runs.
proof fn lemma_lines_distinct(reported: Seq<Segment>, lines: Seq<LineString>)
    requires
        no_dups(reported),
        lines.len() == reported.len(),
        forall|k: int| 0 <= k < reported.len() ==> (#[trigger] lines[k])@ == seq![
            reported[k].a,
            reported[k].b,
        ],
    ensures
        distinct_ls_views(lines),
{
    assert forall|k1: int, k2: int|
        0 <= k1 < k2 < lines.len() implies (#[trigger] lines[k1])@ != (#[trigger] lines[k2])@ by {
        assert(reported[k1] != reported[k2]);
        if lines[k1]@ == lines[k2]@ {
            assert(lines[k1]@[0] == lines[k2]@[0]);
            assert(lines[k1]@[1] == lines[k2]@[1]);
            assert(seq![reported[k1].a, reported[k1].b][0] == reported[k1].a);
            assert(seq![reported[k1].a, reported[k1].b][1] == reported[k1].b);
            assert(seq![reported[k2].a, reported[k2].b][0] == reported[k2].a);
            assert(seq![reported[k2].a, reported[k2].b][1] == reported[k2].b);
            assert(reported[k1] == reported[k2]);
        }
    }
}

/// A segment of `ss` contains the segment `t`.
pub open spec fn contained_in_some(ss: Seq<Segment>, t: Segment) -> bool {
    exists|i: int| 0 <= i < ss.len() && (#[trigger] ss[i]).spec_contains_segment(t)
}

/// Report every segment of `others` that lies within some segment of
/// `linestrings`, as a two-coordinate linestring.
///
/// The verdict is `Valid` exactly when no segment of `others` is contained
/// in a segment of `linestrings`. Each offending segment of `others` is
/// reported once.
#[verifier::rlimit(100)]
#[verifier::spinoff_prover]
pub fn must_not_overlap_with_linestrings(
    linestrings: Vec<LineString>,
    others: Vec<LineString>,
) -> (r: TopologyResult)
    requires
        forall|i: int| 0 <= i < linestrings@.len() ==> (#[trigger] linestrings@[i]).wf(),
        forall|i: int| 0 <= i < others@.len() ==> (#[trigger] others@[i]).wf(),
    ensures
        ({
            let ss = crate::geometry::flat_segments(ls_views(linestrings@));
            let os = crate::geometry::flat_segments(ls_views(others@));
            &&& (r is Valid <==> (forall|j: int|
                0 <= j < os.len() ==> !contained_in_some(ss, #[trigger] os[j])))
            &&& r is Errors ==> {
                let v = r->Errors_0@;
                &&& v.len() == 1
                &&& v[0] is LineString
                &&& v[0]->LineString_0@.len() > 0
                &&& distinct_ls_views(v[0]->LineString_0@)
                &&& forall|k: int|
                    0 <= k < v[0]->LineString_0@.len() ==> exists|t: Segment|
                        os.contains(t) && contained_in_some(ss, t) && (
                        #[trigger] v[0]->LineString_0@[k])@ == seq![t.a, t.b]
                &&& forall|t: Segment|
                    os.contains(t) && contained_in_some(ss, t) ==> exists|k: int|
                        0 <= k < v[0]->LineString_0@.len() && (#[trigger] v[0]->LineString_0@[k])@
                            == seq![t.a, t.b]
            }
        }),
{
    let self_segs = explode_linestrings(&linestrings);
    let other_segs = explode_linestrings(&others);
    let n: usize = self_segs.len();
    let m: usize = other_segs.len();
    // Index the segments of the first collection by envelope; a containing
    // segment always has an intersecting envelope, so the pruning is exact.
    let mut envs: Vec<crate::index::Envelope> = Vec::new();
    let mut e: usize = 0;
    while e < n
        invariant
            n == self_segs@.len(),
            0 <= e <= n,
            envs@.len() == e,
            forall|k: int| 0 <= k < e ==> #[trigger] envs@[k] == crate::index::seg_env(
                self_segs@[k],
            ),
        decreases n - e,
    {
        envs.push(crate::index::segment_envelope(&self_segs[e]));
        e = e + 1;
    }
    let index = crate::index::SpatialIndex::build(envs);
    let mut reported: Vec<Segment> = Vec::new();
    let mut j: usize = 0;
    while j < m
        invariant
            n == self_segs@.len(),
            m == other_segs@.len(),
            crate::sweep::segs_wf(self_segs@),
            crate::sweep::segs_wf(other_segs@),
            index.envelopes@.len() == n,
            forall|k: int|
                0 <= k < n ==> #[trigger] index.envelopes@[k] == crate::index::seg_env(
                    self_segs@[k],
                ),
            0 <= j <= m,
            forall|t: Segment| #[trigger]
                reported@.contains(t) <==> (other_segs@.take(j as int).contains(t)
                    && contained_in_some(self_segs@, t)),
            no_dups(reported@),
        decreases m - j,
    {
        proof {
            assert(other_segs@[j as int].wf());
        }
        let qenv = crate::index::segment_envelope(&other_segs[j]);
        let cands = index.envelope_query(&qenv);
        let nc: usize = cands.len();
        let mut hit: bool = false;
        let mut i: usize = 0;
        while i < nc
            invariant
                n == self_segs@.len(),
                m == other_segs@.len(),
                crate::sweep::segs_wf(self_segs@),
                crate::sweep::segs_wf(other_segs@),
                0 <= j < m,
                nc == cands@.len(),
                forall|q: int| 0 <= q < nc ==> (#[trigger] cands@[q]) < n,
                0 <= i <= nc,
                hit <==> (exists|q: int|
                    0 <= q < i && (#[trigger] self_segs@[cands@[q] as int]).spec_contains_segment(
                        other_segs@[j as int],
                    )),
            decreases nc - i,
        {
            assert(self_segs@[cands@[i as int] as int].wf());
            assert(other_segs@[j as int].wf());
            if self_segs[cands[i]].contains_segment(&other_segs[j]) {
                hit = true;
            }
            i = i + 1;
        }
        proof {
            assert(hit <==> (exists|a: int|
                0 <= a < n && (#[trigger] self_segs@[a]).spec_contains_segment(
                    other_segs@[j as int],
                ))) by {
                if hit {
                    let q = choose|q: int|
                        0 <= q < nc && (#[trigger] self_segs@[cands@[q] as int]).spec_contains_segment(
                            other_segs@[j as int],
                        );
                    assert(self_segs@[cands@[q] as int].spec_contains_segment(
                        other_segs@[j as int],
                    ));
                } else {
                    if exists|a: int|
                        0 <= a < n && (#[trigger] self_segs@[a]).spec_contains_segment(
                            other_segs@[j as int],
                        ) {
                        let a = choose|a: int|
                            0 <= a < n && (#[trigger] self_segs@[a]).spec_contains_segment(
                                other_segs@[j as int],
                            );
                        crate::index::lemma_containment_implies_env(
                            self_segs@[a],
                            other_segs@[j as int],
                        );
                        assert(crate::index::envs_intersect(
                            index.envelopes@[a],
                            qenv,
                        ));
                        assert(cands@.contains(a as usize));
                        let q = choose|q: int| 0 <= q < cands@.len() && cands@[q] == a as usize;
                        assert(self_segs@[cands@[q] as int].spec_contains_segment(
                            other_segs@[j as int],
                        ));
                        assert(false);
                    }
                }
            }
        }
        let ghost prefix = other_segs@.take(j as int);
        let ghost next = other_segs@.take(j as int + 1);
        proof {
            assert(next[j as int] == other_segs@[j as int]);
            assert(forall|t: Segment| prefix.contains(t) ==> next.contains(t));
        }
        if hit {
            push_unique_seg(&mut reported, other_segs[j]);
        }
        proof {
            assert forall|t: Segment| #[trigger] reported@.contains(t) implies (next.contains(t)
                && contained_in_some(self_segs@, t)) by {
                if hit && t == other_segs@[j as int] {
                    assert(next[j as int] == t);
                } else {
                    assert(prefix.contains(t));
                }
            }
            assert forall|t: Segment|
                next.contains(t) && contained_in_some(self_segs@, t) implies #[trigger]
                reported@.contains(t) by {
                let a = choose|a: int| 0 <= a < next.len() && next[a] == t;
                if a == j as int {
                    assert(hit);
                } else {
                    assert(prefix[a] == t);
                    assert(prefix.contains(t));
                }
            }
        }
        j = j + 1;
    }
    proof {
        assert(other_segs@.take(m as int) =~= other_segs@);
    }
    let ghost ss = crate::geometry::flat_segments(ls_views(linestrings@));
    let ghost os = crate::geometry::flat_segments(ls_views(others@));
    let ghost pred = |t: Segment| os.contains(t) && contained_in_some(ss, t);
    proof {
        assert forall|t: Segment| #[trigger] reported@.contains(t) <==> pred(t) by {
            assert(pred(t) == (os.contains(t) && contained_in_some(ss, t)));
        }
    }
    let r = segments_bucket(reported, Ghost(pred));
    proof {
        assert forall|t: Segment| pred(t) == (os.contains(t) && contained_in_some(ss, t)) by {}
        if !(r is Valid) {
            let t0 = choose|t: Segment| #[trigger] pred(t);
            let j0 = choose|a: int| 0 <= a < os.len() && os[a] == t0;
            assert(contained_in_some(ss, os[j0]));
        } else {
            assert forall|j2: int| 0 <= j2 < os.len() implies !contained_in_some(
                ss,
                #[trigger] os[j2],
            ) by {
                if contained_in_some(ss, os[j2]) {
                    assert(os.contains(os[j2]));
                    assert(pred(os[j2]));
                }
            }
        }
    }
    r
}

/// Two distinct segments of one linestring of `lss` stand in the containment
/// relation, the contained one being `t`.
pub open spec fn self_overlap_seg(lss: Seq<Seq<Coord>>, t: Segment) -> bool {
    exists|l: int, i: int, j: int|
        {
            &&& 0 <= l < lss.len()
            &&& 0 <= i < ls_segments(lss[l]).len()
            &&& 0 <= j < ls_segments(lss[l]).len()
            &&& i != j
            &&& (#[trigger] ls_segments(lss[l])[i]).spec_contains_segment(
                #[trigger] ls_segments(lss[l])[j],
            )
            &&& t == ls_segments(lss[l])[j]
        }
}

/// Report every segment of a linestring that lies within another distinct
/// segment of the same linestring, as a two-coordinate linestring.
///
/// Each linestring is examined independently; the verdict is `Valid`
/// exactly when no linestring contains such a pair. Each offending segment
/// is reported once.
#[verifier::rlimit(100)]
#[verifier::spinoff_prover]
pub fn must_not_self_overlap(linestrings: Vec<LineString>) -> (r: TopologyResult)
    requires
        forall|i: int| 0 <= i < linestrings@.len() ==> (#[trigger] linestrings@[i]).wf(),
    ensures
        r is Valid <==> (forall|t: Segment| !self_overlap_seg(ls_views(linestrings@), t)),
        r is Errors ==> {
            let v = r->Errors_0@;
            &&& v.len() == 1
            &&& v[0] is LineString
            &&& v[0]->LineString_0@.len() > 0
            &&& distinct_ls_views(v[0]->LineString_0@)
            &&& forall|k: int|
                0 <= k < v[0]->LineString_0@.len() ==> exists|t: Segment|
                    self_overlap_seg(ls_views(linestrings@), t) && (
                    #[trigger] v[0]->LineString_0@[k])@ == seq![t.a, t.b]
            &&& forall|t: Segment| #[trigger]
                self_overlap_seg(ls_views(linestrings@), t) ==> exists|k: int|
                    0 <= k < v[0]->LineString_0@.len() && (#[trigger] v[0]->LineString_0@[k])@
                        == seq![t.a, t.b]
        },
{
    let nls: usize = linestrings.len();
    let mut reported: Vec<Segment> = Vec::new();
    let mut l: usize = 0;
    while l < nls
        invariant
            nls == linestrings@.len(),
            forall|i: int| 0 <= i < linestrings@.len() ==> (#[trigger] linestrings@[i]).wf(),
            0 <= l <= nls,
            forall|t: Segment| #[trigger]
                reported@.contains(t) <==> self_overlap_seg(
                    ls_views(linestrings@).take(l as int),
                    t,
                ),
            no_dups(reported@),
        decreases nls - l,
    {
        let ghost lprefix = ls_views(linestrings@).take(l as int);
        let ghost lnext = ls_views(linestrings@).take(l as int + 1);
        proof {
            assert(ls_views(linestrings@).len() == linestrings@.len());
            assert(lnext[l as int] == linestrings@[l as int]@);
            assert(forall|p: int| 0 <= p < l ==> lprefix[p] == lnext[p]);
        }
        let segs = linestrings[l].segments();
        let ns: usize = segs.len();
        let mut i: usize = 0;
        while i < ns
            invariant
                nls == linestrings@.len(),
                forall|q: int| 0 <= q < linestrings@.len() ==> (#[trigger] linestrings@[q]).wf(),
                0 <= l < nls,
                ns == segs@.len(),
                segs@ == ls_segments(linestrings@[l as int]@),
                lprefix == ls_views(linestrings@).take(l as int),
                lnext == ls_views(linestrings@).take(l as int + 1),
                lnext[l as int] == linestrings@[l as int]@,
                forall|p: int| 0 <= p < l ==> lprefix[p] == lnext[p],
                0 <= i <= ns,
                forall|t: Segment| #[trigger]
                    reported@.contains(t) <==> (self_overlap_seg(lprefix, t) || pair_here_upto(
                        segs@,
                        i as int,
                        0,
                        t,
                    )),
                no_dups(reported@),
            decreases ns - i,
        {
            let mut j: usize = 0;
            while j < ns
                invariant
                    nls == linestrings@.len(),
                    forall|q: int|
                        0 <= q < linestrings@.len() ==> (#[trigger] linestrings@[q]).wf(),
                    0 <= l < nls,
                    ns == segs@.len(),
                    segs@ == ls_segments(linestrings@[l as int]@),
                    lprefix == ls_views(linestrings@).take(l as int),
                    lnext == ls_views(linestrings@).take(l as int + 1),
                    lnext[l as int] == linestrings@[l as int]@,
                    forall|p: int| 0 <= p < l ==> lprefix[p] == lnext[p],
                    0 <= i < ns,
                    0 <= j <= ns,
                    forall|t: Segment| #[trigger]
                        reported@.contains(t) <==> (self_overlap_seg(lprefix, t)
                            || pair_here_upto(segs@, i as int, j as int, t)),
                    no_dups(reported@),
                decreases ns - j,
            {
                proof {
                    assert(ls_wf(linestrings@[l as int]@)) by {
                        assert(linestrings@[l as int].wf());
                    }
                    lemma_ls_segments_wf(linestrings@[l as int]@);
                }
                if j != i && segs[i].contains_segment(&segs[j]) {
                    push_unique_seg(&mut reported, segs[j]);
                }
                proof {
                    let gi = i as int;
                    let gj = j as int;
                    assert forall|t: Segment| #[trigger]
                        reported@.contains(t) implies (self_overlap_seg(lprefix, t)
                        || pair_here_upto(segs@, gi, gj + 1, t)) by {
                        if gj != gi && segs@[gi].spec_contains_segment(segs@[gj]) && t
                            == segs@[gj] {
                        } else if self_overlap_seg(lprefix, t) {
                        } else {
                            assert(pair_here_upto(segs@, gi, gj, t));
                            let (a, b) = choose|a: int, b: int|
                                0 <= a < segs@.len() && 0 <= b < segs@.len() && a != b && (a < gi
                                    || (a == gi && b < gj)) && (
                                #[trigger] segs@[a]).spec_contains_segment(#[trigger] segs@[b])
                                    && t == segs@[b];
                            assert(pair_here_upto(segs@, gi, gj + 1, t));
                        }
                    }
                    assert forall|t: Segment|
                        (self_overlap_seg(lprefix, t) || pair_here_upto(
                            segs@,
                            gi,
                            gj + 1,
                            t,
                        )) implies #[trigger] reported@.contains(t) by {
                        if self_overlap_seg(lprefix, t) {
                        } else {
                            let (a, b) = choose|a: int, b: int|
                                0 <= a < segs@.len() && 0 <= b < segs@.len() && a != b && (a < gi
                                    || (a == gi && b < gj + 1)) && (
                                #[trigger] segs@[a]).spec_contains_segment(#[trigger] segs@[b])
                                    && t == segs@[b];
                            if a == gi && b == gj {
                            } else {
                                assert(pair_here_upto(segs@, gi, gj, t));
                            }
                        }
                    }
                }
                j = j + 1;
            }
            proof {
                let gi = i as int;
                assert forall|t: Segment|
                    pair_here_upto(segs@, gi, ns as int, t) == pair_here_upto(
                        segs@,
                        gi + 1,
                        0,
                        t,
                    ) by {
                    if pair_here_upto(segs@, gi, ns as int, t) {
                        let (a, b) = choose|a: int, b: int|
                            0 <= a < segs@.len() && 0 <= b < segs@.len() && a != b && (a < gi || (
                            a == gi && b < ns as int)) && (
                            #[trigger] segs@[a]).spec_contains_segment(#[trigger] segs@[b]) && t
                                == segs@[b];
                        assert(a < gi + 1);
                        assert(pair_here_upto(segs@, gi + 1, 0, t));
                    }
                    if pair_here_upto(segs@, gi + 1, 0, t) {
                        let (a, b) = choose|a: int, b: int|
                            0 <= a < segs@.len() && 0 <= b < segs@.len() && a != b && (a < gi + 1
                                || (a == gi + 1 && b < 0)) && (
                            #[trigger] segs@[a]).spec_contains_segment(#[trigger] segs@[b]) && t
                                == segs@[b];
                        assert(a < gi || (a == gi && b < ns as int));
                        assert(pair_here_upto(segs@, gi, ns as int, t));
                    }
                }
            }
            i = i + 1;
        }
        proof {
            assert forall|t: Segment|
                (self_overlap_seg(lprefix, t) || pair_here_upto(
                    segs@,
                    ns as int,
                    0,
                    t,
                )) == self_overlap_seg(lnext, t) by {
                if self_overlap_seg(lprefix, t) {
                    let (a, b, c) = choose|a: int, b: int, c: int|
                        0 <= a < lprefix.len() && 0 <= b < ls_segments(lprefix[a]).len() && 0 <= c
                            < ls_segments(lprefix[a]).len() && b != c && (#[trigger] ls_segments(
                            lprefix[a],
                        )[b]).spec_contains_segment(#[trigger] ls_segments(lprefix[a])[c]) && t
                            == ls_segments(lprefix[a])[c];
                    assert(lnext[a] == lprefix[a]);
                    assert(self_overlap_seg(lnext, t));
                } else if pair_here_upto(segs@, ns as int, 0, t) {
                    let (a, b) = choose|a: int, b: int|
                        0 <= a < segs@.len() && 0 <= b < segs@.len() && a != b && (a < ns as int
                            || (a == ns as int && b < 0)) && (
                        #[trigger] segs@[a]).spec_contains_segment(#[trigger] segs@[b]) && t
                            == segs@[b];
                    assert(lnext[l as int] == linestrings@[l as int]@);
                    assert(self_overlap_seg(lnext, t));
                } else if self_overlap_seg(lnext, t) {
                    let (a, b, c) = choose|a: int, b: int, c: int|
                        0 <= a < lnext.len() && 0 <= b < ls_segments(lnext[a]).len() && 0 <= c
                            < ls_segments(lnext[a]).len() && b != c && (#[trigger] ls_segments(
                            lnext[a],
                        )[b]).spec_contains_segment(#[trigger] ls_segments(lnext[a])[c]) && t
                            == ls_segments(lnext[a])[c];
                    if a == l as int {
                        assert(pair_here_upto(segs@, ns as int, 0, t));
                    } else {
                        assert(lprefix[a] == lnext[a]);
                        assert(self_overlap_seg(lprefix, t));
                    }
                    assert(false);
                }
            }
        }
        l = l + 1;
    }
    proof {
        assert(ls_views(linestrings@).take(nls as int) =~= ls_views(linestrings@));
    }
    let ghost pred = |t: Segment| self_overlap_seg(ls_views(linestrings@), t);
    proof {
        assert forall|t: Segment| #[trigger] reported@.contains(t) <==> pred(t) by {
            assert(pred(t) == self_overlap_seg(ls_views(linestrings@), t));
        }
    }
    let r = segments_bucket(reported, Ghost(pred));
    proof {
        assert forall|t: Segment| pred(t) == self_overlap_seg(ls_views(linestrings@), t) by {}
    }
    r
}

/// The ordered segment pairs of one linestring processed before position
/// `(i, j)`, in the containment relation with contained segment `t`.
pub open spec fn pair_here_upto(segs: Seq<Segment>, i: int, j: int, t: Segment) -> bool {
    exists|a: int, b: int|
        0 <= a < segs.len() && 0 <= b < segs.len() && a != b && (a < i || (a == i && b < j)) && (
        #[trigger] segs[a]).spec_contains_segment(#[trigger] segs[b]) && t == segs[b]
}

/// The segments of a well-formed linestring are well-formed.
pub proof fn lemma_ls_segments_wf(c: Seq<Coord>)
    requires
        ls_wf(c),
    ensures
        forall|k: int| 0 <= k < ls_segments(c).len() ==> (#[trigger] ls_segments(c)[k]).wf(),
{
    assert forall|k: int| 0 <= k < ls_segments(c).len() implies (
    #[trigger] ls_segments(c)[k]).wf() by {
        assert(ls_segments(c)[k] == (Segment { a: c[k], b: c[k + 1] }));
        assert(c[k].wf());
        assert(c[k + 1].wf());
        assert(c[k] != c[k + 1]);
    }
}

} // verus!

// The polygon variants of the rule delegate the boolean intersection of two
// polygons to an exact integer clipping engine and report the pieces it
// returns.
verus! {

/// The shapes of the boolean intersection of two polygons, each shape a list
/// of open contours (outer boundary first, holes after it, closing
/// coordinate omitted).
///
/// This names the result of `i_overlay`'s integer `Intersect` operation on
/// the two contour lists; it depends on the contours alone.
pub uninterp spec fn poly_isect_shapes(a: Seq<Seq<Coord>>, b: Seq<Seq<Coord>>) -> Seq<
    Seq<Seq<Coord>>,
>;

/// Every coordinate of every contour lies on the accepted grid.
pub open spec fn contours_wf(v: Seq<Seq<Coord>>) -> bool {
    forall|i: int, j: int|
        0 <= i < v.len() && 0 <= j < v[i].len() ==> (#[trigger] v[i][j]).wf()
}

/// Relies on `i_overlay`'s `Overlay::overlay` with the `Intersect` rule and
/// the even-odd fill rule on the `i64` grid: the returned shapes are the
/// boolean intersection of the two input shapes, as integer contours. The
/// engine demands every coordinate of an `i64` operation within its integer
/// range and does not check that at run time; the crate's grid bound is far
/// inside it.
#[verifier::external_body]
fn int_overlay_intersect(subj: &Vec<Vec<Coord>>, clip: &Vec<Vec<Coord>>) -> (r: Vec<
    Vec<Vec<Coord>>,
>)
    requires
        contours_wf(subj.deep_view()),
        contours_wf(clip.deep_view()),
    ensures
        r.deep_view() == poly_isect_shapes(subj.deep_view(), clip.deep_view()),
{
    let conv = |v: &Vec<Vec<Coord>>| -> Vec<Vec<IntPoint<i64>>> {
        v.iter().map(|c| c.iter().map(|p| IntPoint::new(p.x, p.y)).collect()).collect()
    };
    let shapes = i_overlay::core::single::SingleIntOverlay::overlay(
        &conv(subj),
        &conv(clip),
        i_overlay::core::overlay_rule::OverlayRule::Intersect,
        i_overlay::core::fill_rule::FillRule::EvenOdd,
    );
    shapes.into_iter().map(
        |sh| sh.into_iter().map(
            |ct| ct.into_iter().map(|p| Coord { x: p.x, y: p.y }).collect(),
        ).collect(),
    ).collect()
}

/// The deep view of a nested coordinate vector is its element views.
pub proof fn lemma_coord_vv_deep(v: Vec<Vec<Coord>>)
    ensures
        v.deep_view().len() == v@.len(),
        forall|i: int| 0 <= i < v@.len() ==> #[trigger] v.deep_view()[i] == v@[i]@,
{
    assert forall|i: int| 0 <= i < v@.len() implies #[trigger] v.deep_view()[i] == v@[i]@ by {
        assert(v.deep_view()[i] == v@[i].deep_view());
        assert(v@[i].deep_view() =~= v@[i]@);
    }
}

/// The deep view of a shape vector is its elements' deep views.
pub proof fn lemma_shape_vv_deep(v: Vec<Vec<Vec<Coord>>>)
    ensures
        v.deep_view().len() == v@.len(),
        forall|i: int| 0 <= i < v@.len() ==> #[trigger] v.deep_view()[i] == v@[i].deep_view(),
{
}

/// The rings of a polygon with the closing coordinate dropped.
pub open spec fn open_rings_spec(rings: Seq<Seq<Coord>>) -> Seq<Seq<Coord>> {
    Seq::new(rings.len(), |i: int| rings[i].drop_last())
}

/// Drop the closing coordinate of every ring.
fn open_rings(p: &Polygon) -> (r: Vec<Vec<Coord>>)
    requires
        p.wf(),
    ensures
        r.deep_view() == open_rings_spec(p@),
        contours_wf(r.deep_view()),
{
    let mut out: Vec<Vec<Coord>> = Vec::new();
    let ghost rings = p@;
    proof {
        assert(rings[0] == p.exterior@);
    }
    out.push(open_ring(&p.exterior));
    proof {
        lemma_coord_vv_deep(out);
        assert(out.deep_view() =~= open_rings_spec(rings).take(1));
        assert(out.deep_view().len() == out@.len());
    }
    let mut h: usize = 0;
    while h < p.interiors.len()
        invariant
            p.wf(),
            rings == p@,
            rings.len() == 1 + p.interiors@.len(),
            0 <= h <= p.interiors@.len(),
            out.deep_view() == open_rings_spec(rings).take(h as int + 1),
            out.deep_view().len() == out@.len(),
        decreases p.interiors@.len() - h,
    {
        let ghost out_before = out;
        proof {
            assert(rings[h + 1] == p.interiors@[h as int]@);
        }
        let ring = open_ring(&p.interiors[h]);
        out.push(ring);
        proof {
            lemma_coord_vv_deep(out);
            lemma_coord_vv_deep(out_before);
            assert(out@ == out_before@.push(out@[out_before@.len() as int]));
            assert forall|x: int| 0 <= x < out@.len() implies #[trigger] out.deep_view()[x]
                == open_rings_spec(rings).take(h as int + 2)[x] by {
                if x < out_before@.len() {
                    assert(out.deep_view()[x] == out@[x]@);
                    assert(out_before.deep_view()[x] == out_before@[x]@);
                    assert(open_rings_spec(rings).take(h as int + 1)[x] == open_rings_spec(
                        rings,
                    ).take(h as int + 2)[x]);
                } else {
                    assert(out.deep_view()[x] == out@[x]@);
                    assert(open_rings_spec(rings).take(h as int + 2)[x] == rings[h
                        + 1].drop_last());
                }
            }
            assert(out.deep_view() =~= open_rings_spec(rings).take(h as int + 2));
        }
        h = h + 1;
    }
    proof {
        assert(open_rings_spec(rings).take(rings.len() as int) =~= open_rings_spec(rings));
        assert forall|i: int, j: int|
            0 <= i < out.deep_view().len() && 0 <= j < out.deep_view()[i].len() implies (
        #[trigger] out.deep_view()[i][j]).wf() by {
            assert(out.deep_view()[i] == rings[i].drop_last());
            assert(crate::geometry::ring_wf(rings[i]));
            assert(out.deep_view()[i][j] == rings[i][j]);
        }
    }
    out
}

/// A ring without its closing coordinate.
fn open_ring(ring: &LineString) -> (r: Vec<Coord>)
    requires
        ring@.len() >= 1,
    ensures
        r@ == ring@.drop_last(),
{
    let mut out: Vec<Coord> = Vec::new();
    let n: usize = ring.coords.len() - 1;
    let mut i: usize = 0;
    while i < n
        invariant
            n == ring@.len() - 1,
            0 <= i <= n,
            out@ == ring@.take(i as int),
        decreases n - i,
    {
        out.push(ring.coords[i]);
        proof {
            assert(out@ =~= ring@.take(i + 1));
        }
        i = i + 1;
    }
    proof {
        assert(ring@.take(n as int) =~= ring@.drop_last());
    }
    out
}

/// An open contour that closes into a well-formed ring.
pub open spec fn contour_ok(c: Seq<Coord>) -> bool {
    crate::geometry::ring_wf(c.push(c[0]))
}

/// Every contour of the shape closes into a well-formed ring.
pub open spec fn shape_ok(shape: Seq<Seq<Coord>>) -> bool {
    shape.len() >= 1 && forall|i: int| 0 <= i < shape.len() ==> contour_ok(#[trigger] shape[i])
}

/// The shape as a ring list: every contour closed by repeating its first
/// coordinate.
pub open spec fn close_shape(shape: Seq<Seq<Coord>>) -> Seq<Seq<Coord>> {
    Seq::new(shape.len(), |i: int| shape[i].push(shape[i][0]))
}

/// The well-formed polygons of a shape list, closed, in order; shapes with a
/// degenerate contour are dropped.
pub open spec fn closed_shapes(shapes: Seq<Seq<Seq<Coord>>>) -> Seq<Seq<Seq<Coord>>>
    decreases shapes.len(),
{
    if shapes.len() == 0 {
        Seq::empty()
    } else {
        closed_shapes(shapes.drop_last()) + (if shape_ok(shapes.last()) {
            seq![close_shape(shapes.last())]
        } else {
            Seq::empty()
        })
    }
}

/// Close one contour into a ring, checking well-formedness.
fn close_contour(c: &Vec<Coord>) -> (r: Option<LineString>)
    ensures
        r is Some <==> contour_ok(c@),
        r is Some ==> r->0@ == c@.push(c@[0]),
{
    if c.len() == 0 {
        proof {
            assert(c@.push(c@[0]).len() == 1);
            assert(!crate::geometry::ring_wf(c@.push(c@[0])));
        }
        return None;
    }
    let mut ring: Vec<Coord> = clone_coord_vec(c);
    ring.push(c[0]);
    proof {
        assert(ring@ =~= c@.push(c@[0]));
    }
    let n = ring.len();
    match LineString::from_coords(ring) {
        Some(ls) => {
            if ls.coords.len() >= 4 && ls.first() == ls.last() {
                proof {
                    assert(crate::geometry::ls_closed(ls@));
                }
                Some(ls)
            } else {
                proof {
                    assert(!crate::geometry::ring_wf(c@.push(c@[0])));
                }
                None
            }
        },
        None => {
            proof {
                assert(!crate::geometry::ls_wf(c@.push(c@[0])));
            }
            None
        },
    }
}

/// Close a shape list into polygons, dropping degenerate shapes.
#[verifier::rlimit(100)]
#[verifier::spinoff_prover]
fn close_shapes_exec(shapes: &Vec<Vec<Vec<Coord>>>) -> (r: Vec<Polygon>)
    ensures
        crate::geometry::poly_views(r@) == closed_shapes(shapes.deep_view()),
        forall|i: int| 0 <= i < r@.len() ==> (#[trigger] r@[i]).wf(),
{
    let ghost sv = shapes.deep_view();
    let mut out: Vec<Polygon> = Vec::new();
    let n: usize = shapes.len();
    let mut i: usize = 0;
    proof {
        lemma_shape_vv_deep(*shapes);
    }
    while i < n
        invariant
            n == shapes@.len(),
            sv == shapes.deep_view(),
            sv.len() == n,
            forall|m: int| 0 <= m < n ==> #[trigger] sv[m] == shapes@[m].deep_view(),
            crate::geometry::poly_views(out@) == closed_shapes(sv.take(i as int)),
            forall|m: int| 0 <= m < out@.len() ==> (#[trigger] out@[m]).wf(),
            0 <= i <= n,
        decreases n - i,
    {
        let ghost prefix = sv.take(i as int);
        proof {
            assert(sv.take(i as int + 1).drop_last() =~= prefix);
            assert(sv.take(i as int + 1).last() == sv[i as int]);
        }
        proof {
            lemma_shape_vv_deep(*shapes);
        }
        let shape = &shapes[i];
        let mut rings: Vec<LineString> = Vec::new();
        let mut ok: bool = shape.len() >= 1;
        let m: usize = shape.len();
        let mut j: usize = 0;
        proof {
            lemma_coord_vv_deep(*shape);
            assert(sv[i as int] == shape.deep_view());
        }
        while j < m
            invariant
                m == shape@.len(),
                sv[i as int] == shape.deep_view(),
                0 <= i < n,
                forall|q: int| 0 <= q < m ==> #[trigger] shape.deep_view()[q] == shape@[q]@,
                0 <= j <= m,
                ok ==> m >= 1,
                ok <==> (m >= 1 && forall|q: int|
                    0 <= q < j ==> contour_ok(#[trigger] shape.deep_view()[q])),
                ok ==> rings@.len() == j,
                ok ==> forall|q: int|
                    0 <= q < j ==> (#[trigger] rings@[q])@ == shape.deep_view()[q].push(
                        shape.deep_view()[q][0],
                    ),
                ok ==> forall|q: int| 0 <= q < j ==> (#[trigger] rings@[q]).wf() && ls_closed(
                    rings@[q]@,
                ),
            decreases m - j,
        {
            match close_contour(&shape[j]) {
                Some(ls) => {
                    proof {
                        assert(contour_ok(shape@[j as int]@));
                        assert(crate::geometry::ring_wf(ls@));
                    }
                    if ok {
                        rings.push(ls);
                    }
                },
                None => {
                    proof {
                        assert(!contour_ok(shape.deep_view()[j as int]));
                    }
                    ok = false;
                },
            }
            j = j + 1;
        }
        if ok && rings.len() >= 1 {
            proof {
                assert(shape_ok(sv[i as int]));
            }
            let mut iter_rings = rings;
            let exterior = iter_rings.remove(0);
            let poly = Polygon { exterior, interiors: iter_rings };
            let ghost before = out@;
            proof {
                assert(poly@.len() == 1 + poly.interiors@.len());
                assert forall|q: int| 0 <= q < poly@.len() implies #[trigger] poly@[q]
                    == close_shape(sv[i as int])[q] by {
                    assert(close_shape(sv[i as int])[q] == sv[i as int][q].push(
                        sv[i as int][q][0],
                    ));
                }
                assert(poly@ =~= close_shape(sv[i as int]));
                assert(poly.wf()) by {
                    assert forall|q: int| 0 <= q < poly@.len() implies crate::geometry::ring_wf(
                        #[trigger] poly@[q],
                    ) by {
                        assert(contour_ok(sv[i as int][q]));
                    }
                }
            }
            out.push(poly);
            proof {
                let model = closed_shapes(sv.take(i as int + 1));
                assert(model == closed_shapes(prefix) + seq![close_shape(sv[i as int])]);
                assert(crate::geometry::poly_views(out@).len() == out@.len());
                assert(crate::geometry::poly_views(before).len() == before.len());
                assert forall|q: int|
                    0 <= q < out@.len() implies crate::geometry::poly_views(out@)[q]
                    == model[q] by {
                    if q < before.len() {
                        assert(crate::geometry::poly_views(before)[q] == before[q]@);
                        assert(crate::geometry::poly_views(before)[q] == closed_shapes(prefix)[q]);
                    } else {
                        assert(model[q] == close_shape(sv[i as int]));
                    }
                }
                assert(crate::geometry::poly_views(out@) =~= model);
            }
        } else {
            proof {
                assert(!shape_ok(sv[i as int])) by {
                    if shape_ok(sv[i as int]) {
                        assert(m >= 1);
                        assert(forall|q: int|
                            0 <= q < m ==> contour_ok(#[trigger] shape.deep_view()[q]));
                    }
                }
                assert(closed_shapes(sv.take(i as int + 1)) =~= closed_shapes(prefix));
            }
        }
        i = i + 1;
    }
    proof {
        assert(sv.take(n as int) =~= sv);
    }
    out
}

/// The pieces of the boolean intersection of polygons `i` and `j` of the
/// sequence, as closed well-formed ring lists.
pub open spec fn pair_isect(pvs: Seq<Seq<Seq<Coord>>>, i: int, j: int) -> Seq<Seq<Seq<Coord>>> {
    closed_shapes(poly_isect_shapes(open_rings_spec(pvs[i]), open_rings_spec(pvs[j])))
}

/// Some unordered pair of distinct polygons yields the intersection piece
/// `w`.
pub open spec fn pair_isect_piece(pvs: Seq<Seq<Seq<Coord>>>, w: Seq<Seq<Coord>>) -> bool {
    exists|i: int, j: int| 0 <= i < j < pvs.len() && (#[trigger] pair_isect(pvs, i, j)).contains(w)
}

/// [`pair_isect_piece`] restricted to the pairs before `(i, j)`.
pub open spec fn pair_isect_piece_upto(
    pvs: Seq<Seq<Seq<Coord>>>,
    i: int,
    j: int,
    w: Seq<Seq<Coord>>,
) -> bool {
    exists|a: int, b: int|
        0 <= a < b < pvs.len() && pair_done(a, b, i, j) && (#[trigger] pair_isect(
            pvs,
            a,
            b,
        )).contains(w)
}

/// No two polygons of the sequence have the same rings.
pub open spec fn distinct_poly_views(v: Seq<Polygon>) -> bool {
    forall|k1: int, k2: int| 0 <= k1 < k2 < v.len() ==> (#[trigger] v[k1])@ != (#[trigger] v[k2])@
}

/// Whether the polygon vector holds a polygon with the given rings.
fn contains_poly(v: &Vec<Polygon>, p: &Polygon) -> (r: bool)
    ensures
        r == crate::geometry::poly_views(v@).contains(p@),
{
    proof {
        assert(crate::geometry::poly_views(v@).len() == v@.len());
    }
    let mut k: usize = 0;
    while k < v.len()
        invariant
            0 <= k <= v@.len(),
            forall|m: int| 0 <= m < k ==> (#[trigger] v@[m])@ != p@,
        decreases v@.len() - k,
    {
        if &v[k] == p {
            proof {
                assert(crate::geometry::poly_views(v@)[k as int] == v@[k as int]@);
            }
            return true;
        }
        k = k + 1;
    }
    proof {
        assert forall|m: int|
            0 <= m < crate::geometry::poly_views(v@).len() implies #[trigger] crate::geometry::poly_views(
            v@,
        )[m] != p@ by {
            assert(crate::geometry::poly_views(v@)[m] == v@[m]@);
        }
    }
    false
}

/// Report the boolean intersections of every unordered pair of distinct
/// input polygons.
///
/// The verdict is `Valid` exactly when every pairwise intersection is
/// empty. In an invalid verdict the single polygon bucket holds each
/// intersection piece once.
#[verifier::rlimit(100)]
#[verifier::spinoff_prover]
pub fn must_not_overlap_polygons(polygons: Vec<Polygon>) -> (r: TopologyResult)
    requires
        forall|i: int| 0 <= i < polygons@.len() ==> (#[trigger] polygons@[i]).wf(),
    ensures
        ({
            let pvs = crate::geometry::poly_views(polygons@);
            &&& (r is Valid <==> (forall|w: Seq<Seq<Coord>>| !(#[trigger] pair_isect_piece(
                pvs,
                w,
            ))))
            &&& r is Errors ==> {
                let v = r->Errors_0@;
                &&& v.len() == 1
                &&& v[0] is Polygon
                &&& v[0]->Polygon_0@.len() > 0
                &&& distinct_poly_views(v[0]->Polygon_0@)
                &&& forall|w: Seq<Seq<Coord>>| #[trigger]
                    crate::geometry::poly_views(v[0]->Polygon_0@).contains(w) <==> pair_isect_piece(
                        pvs,
                        w,
                    )
                &&& forall|k: int| 0 <= k < v[0]->Polygon_0@.len() ==> (
                #[trigger] v[0]->Polygon_0@[k]).wf()
            }
        }),
{
    let ghost pvs = crate::geometry::poly_views(polygons@);
    let n: usize = polygons.len();
    let mut pieces: Vec<Polygon> = Vec::new();
    let mut i: usize = 0;
    proof {
        assert(pvs.len() == polygons@.len());
    }
    while i < n
        invariant
            n == polygons@.len(),
            forall|m: int| 0 <= m < polygons@.len() ==> (#[trigger] polygons@[m]).wf(),
            pvs == crate::geometry::poly_views(polygons@),
            pvs.len() == n,
            0 <= i <= n,
            forall|w: Seq<Seq<Coord>>| #[trigger]
                crate::geometry::poly_views(pieces@).contains(w) <==> pair_isect_piece_upto(
                    pvs,
                    i as int,
                    i as int + 1,
                    w,
                ),
            forall|m: int| 0 <= m < pieces@.len() ==> (#[trigger] pieces@[m]).wf(),
            distinct_poly_views(pieces@),
        decreases n - i,
    {
        let mut j: usize = i + 1;
        while j < n
            invariant
                n == polygons@.len(),
                forall|m: int| 0 <= m < polygons@.len() ==> (#[trigger] polygons@[m]).wf(),
                pvs == crate::geometry::poly_views(polygons@),
                pvs.len() == n,
                0 <= i < n,
                i + 1 <= j <= n,
                forall|w: Seq<Seq<Coord>>| #[trigger]
                    crate::geometry::poly_views(pieces@).contains(w) <==> pair_isect_piece_upto(
                        pvs,
                        i as int,
                        j as int,
                        w,
                    ),
                forall|m: int| 0 <= m < pieces@.len() ==> (#[trigger] pieces@[m]).wf(),
                distinct_poly_views(pieces@),
            decreases n - j,
        {
            proof {
                assert(pvs[i as int] == polygons@[i as int]@);
                assert(pvs[j as int] == polygons@[j as int]@);
            }
            let subj = open_rings(&polygons[i]);
            let clip = open_rings(&polygons[j]);
            let shapes = int_overlay_intersect(&subj, &clip);
            let new_polys = close_shapes_exec(&shapes);
            let ghost pair = pair_isect(pvs, i as int, j as int);
            proof {
                assert(crate::geometry::poly_views(new_polys@) == pair);
            }
            let m: usize = new_polys.len();
            let mut q: usize = 0;
            proof {
                assert(crate::geometry::poly_views(new_polys@).len() == new_polys@.len());
            }
            while q < m
                invariant
                    m == new_polys@.len(),
                    pair == crate::geometry::poly_views(new_polys@),
                    forall|x: int| 0 <= x < m ==> (#[trigger] new_polys@[x]).wf(),
                    0 <= i < n,
                    i < j < n,
                    pvs.len() == n,
                    pair == pair_isect(pvs, i as int, j as int),
                    0 <= q <= m,
                    forall|w: Seq<Seq<Coord>>| #[trigger]
                        crate::geometry::poly_views(pieces@).contains(w) <==> (
                        pair_isect_piece_upto(pvs, i as int, j as int, w) || pair.take(
                            q as int,
                        ).contains(w)),
                    forall|x: int| 0 <= x < pieces@.len() ==> (#[trigger] pieces@[x]).wf(),
                    distinct_poly_views(pieces@),
                decreases m - q,
            {
                let ghost wq = pair[q as int];
                proof {
                    assert(new_polys@[q as int]@ == pair[q as int]);
                    assert(pair.take(q as int + 1)[q as int] == wq);
                    assert(forall|x: int|
                        0 <= x < q ==> pair.take(q as int)[x] == pair.take(q as int + 1)[x]);
                }
                let ghost before = pieces@;
                if !contains_poly(&pieces, &new_polys[q]) {
                    pieces.push(new_polys[q].clone());
                    proof {
                        assert(crate::geometry::poly_views(pieces@).len() == pieces@.len());
                        assert(crate::geometry::poly_views(before).len() == before.len());
                        assert(pieces@[before.len() as int]@ == wq);
                        assert forall|x1: int, x2: int|
                            0 <= x1 < x2 < pieces@.len() implies (#[trigger] pieces@[x1])@ != (
                        #[trigger] pieces@[x2])@ by {
                            if x2 == pieces@.len() - 1 {
                                assert(pieces@[x1] == before[x1]);
                                if pieces@[x1]@ == wq {
                                    assert(crate::geometry::poly_views(before)[x1]
                                        == before[x1]@);
                                    assert(crate::geometry::poly_views(before).contains(wq));
                                }
                            } else {
                                assert(pieces@[x1] == before[x1]);
                                assert(pieces@[x2] == before[x2]);
                            }
                        }
                        assert forall|w: Seq<Seq<Coord>>| #[trigger]
                            crate::geometry::poly_views(pieces@).contains(w) <==> (
                        crate::geometry::poly_views(before).contains(w) || w == wq) by {
                            if crate::geometry::poly_views(pieces@).contains(w) {
                                let x = choose|x: int|
                                    0 <= x < pieces@.len()
                                        && crate::geometry::poly_views(pieces@)[x] == w;
                                if x < before.len() {
                                    assert(crate::geometry::poly_views(before)[x] == before[x]@);
                                    assert(crate::geometry::poly_views(before).contains(w));
                                }
                            }
                            if crate::geometry::poly_views(before).contains(w) {
                                let x = choose|x: int|
                                    0 <= x < before.len() && crate::geometry::poly_views(
                                        before,
                                    )[x] == w;
                                assert(crate::geometry::poly_views(pieces@)[x] == w);
                            }
                            if w == wq {
                                assert(crate::geometry::poly_views(pieces@)[before.len() as int]
                                    == wq);
                            }
                        }
                    }
                }
                proof {
                    assert forall|w: Seq<Seq<Coord>>| #[trigger]
                        crate::geometry::poly_views(pieces@).contains(w) <==> (
                    pair_isect_piece_upto(pvs, i as int, j as int, w) || pair.take(
                        q as int + 1,
                    ).contains(w)) by {
                        if crate::geometry::poly_views(pieces@).contains(w) {
                            if w == wq {
                                assert(pair.take(q as int + 1)[q as int] == w);
                            } else {
                                assert(crate::geometry::poly_views(before).contains(w) || w == wq);
                                if pair.take(q as int).contains(w) {
                                    let x = choose|x: int|
                                        0 <= x < q && #[trigger] pair.take(q as int)[x] == w;
                                    assert(pair.take(q as int + 1)[x] == w);
                                }
                            }
                        } else {
                            if pair.take(q as int + 1).contains(w) {
                                let x = choose|x: int|
                                    0 <= x < q + 1 && #[trigger] pair.take(q as int + 1)[x] == w;
                                if x < q {
                                    assert(pair.take(q as int)[x] == w);
                                } else {
                                    assert(w == wq);
                                    assert(crate::geometry::poly_views(pieces@).contains(w));
                                }
                                assert(false);
                            }
                        }
                    }
                }
                q = q + 1;
            }
            proof {
                assert(pair.take(m as int) =~= pair);
                let gi = i as int;
                let gj = j as int;
                assert forall|w: Seq<Seq<Coord>>|
                    (pair_isect_piece_upto(pvs, gi, gj, w) || pair.contains(w))
                        == pair_isect_piece_upto(pvs, gi, gj + 1, w) by {
                    if pair_isect_piece_upto(pvs, gi, gj, w) {
                        let (a, b) = choose|a: int, b: int|
                            0 <= a < b < pvs.len() && pair_done(a, b, gi, gj) && (
                            #[trigger] pair_isect(pvs, a, b)).contains(w);
                        assert(pair_done(a, b, gi, gj + 1));
                        assert(pair_isect_piece_upto(pvs, gi, gj + 1, w));
                    } else if pair.contains(w) {
                        assert(pair_done(gi, gj, gi, gj + 1));
                        assert(pair_isect(pvs, gi, gj).contains(w));
                        assert(pair_isect_piece_upto(pvs, gi, gj + 1, w));
                    } else if pair_isect_piece_upto(pvs, gi, gj + 1, w) {
                        let (a, b) = choose|a: int, b: int|
                            0 <= a < b < pvs.len() && pair_done(a, b, gi, gj + 1) && (
                            #[trigger] pair_isect(pvs, a, b)).contains(w);
                        if a == gi && b == gj {
                            assert(pair.contains(w));
                        } else {
                            assert(pair_done(a, b, gi, gj));
                            assert(pair_isect_piece_upto(pvs, gi, gj, w));
                        }
                        assert(false);
                    }
                }
            }
            j = j + 1;
        }
        proof {
            let gi = i as int;
            assert forall|w: Seq<Seq<Coord>>|
                pair_isect_piece_upto(pvs, gi, n as int, w) == pair_isect_piece_upto(
                    pvs,
                    gi + 1,
                    gi + 2,
                    w,
                ) by {
                if pair_isect_piece_upto(pvs, gi, n as int, w) {
                    let (a, b) = choose|a: int, b: int|
                        0 <= a < b < pvs.len() && pair_done(a, b, gi, n as int) && (
                        #[trigger] pair_isect(pvs, a, b)).contains(w);
                    assert(pair_done(a, b, gi + 1, gi + 2));
                    assert(pair_isect_piece_upto(pvs, gi + 1, gi + 2, w));
                }
                if pair_isect_piece_upto(pvs, gi + 1, gi + 2, w) {
                    let (a, b) = choose|a: int, b: int|
                        0 <= a < b < pvs.len() && pair_done(a, b, gi + 1, gi + 2) && (
                        #[trigger] pair_isect(pvs, a, b)).contains(w);
                    assert(pair_done(a, b, gi, n as int));
                    assert(pair_isect_piece_upto(pvs, gi, n as int, w));
                }
            }
        }
        i = i + 1;
    }
    proof {
        assert forall|w: Seq<Seq<Coord>>|
            pair_isect_piece_upto(pvs, n as int, n as int + 1, w) == pair_isect_piece(pvs, w) by {
            if pair_isect_piece_upto(pvs, n as int, n as int + 1, w) {
                let (a, b) = choose|a: int, b: int|
                    0 <= a < b < pvs.len() && pair_done(a, b, n as int, n as int + 1) && (
                    #[trigger] pair_isect(pvs, a, b)).contains(w);
                assert(pair_isect_piece(pvs, w));
            }
            if pair_isect_piece(pvs, w) {
                let (a, b) = choose|a: int, b: int|
                    0 <= a < b < pvs.len() && (#[trigger] pair_isect(pvs, a, b)).contains(w);
                assert(pair_done(a, b, n as int, n as int + 1));
                assert(pair_isect_piece_upto(pvs, n as int, n as int + 1, w));
            }
        }
    }
    if pieces.len() == 0 {
        proof {
            assert forall|w: Seq<Seq<Coord>>| !(#[trigger] pair_isect_piece(pvs, w)) by {
                if pair_isect_piece(pvs, w) {
                    assert(crate::geometry::poly_views(pieces@).contains(w));
                    let x = choose|x: int|
                        0 <= x < pieces@.len() && crate::geometry::poly_views(pieces@)[x] == w;
                }
            }
        }
        TopologyResult::Valid
    } else {
        proof {
            assert(crate::geometry::poly_views(pieces@).len() == pieces@.len());
            assert(crate::geometry::poly_views(pieces@)[0] == pieces@[0]@);
            assert(crate::geometry::poly_views(pieces@).contains(pieces@[0]@));
            assert(pair_isect_piece(pvs, pieces@[0]@));
        }
        let mut errors: Vec<TopologyError> = Vec::new();
        errors.push(TopologyError::Polygon(pieces));
        TopologyResult::Errors(errors)
    }
}


/// The pieces of the boolean intersection of polygon `i` of the first
/// sequence with polygon `j` of the second, as closed well-formed ring
/// lists.
pub open spec fn cross_isect(
    pvs: Seq<Seq<Seq<Coord>>>,
    ovs: Seq<Seq<Seq<Coord>>>,
    i: int,
    j: int,
) -> Seq<Seq<Seq<Coord>>> {
    closed_shapes(poly_isect_shapes(open_rings_spec(pvs[i]), open_rings_spec(ovs[j])))
}

/// Some cross pair yields the intersection piece `w`.
pub open spec fn cross_isect_piece(
    pvs: Seq<Seq<Seq<Coord>>>,
    ovs: Seq<Seq<Seq<Coord>>>,
    w: Seq<Seq<Coord>>,
) -> bool {
    exists|i: int, j: int|
        0 <= i < pvs.len() && 0 <= j < ovs.len() && (#[trigger] cross_isect(
            pvs,
            ovs,
            i,
            j,
        )).contains(w)
}

/// [`cross_isect_piece`] restricted to the cross pairs before `(i, j)`.
pub open spec fn cross_isect_piece_upto(
    pvs: Seq<Seq<Seq<Coord>>>,
    ovs: Seq<Seq<Seq<Coord>>>,
    i: int,
    j: int,
    w: Seq<Seq<Coord>>,
) -> bool {
    exists|a: int, b: int|
        0 <= a < pvs.len() && 0 <= b < ovs.len() && pair_done(a, b, i, j) && (
        #[trigger] cross_isect(pvs, ovs, a, b)).contains(w)
}

/// Report the boolean intersections of every polygon of the first
/// collection with every polygon of the second.
///
/// The verdict is `Valid` exactly when every such intersection is empty. In
/// an invalid verdict the single polygon bucket holds each intersection
/// piece once.
#[verifier::rlimit(100)]
#[verifier::spinoff_prover]
pub fn must_not_overlap_with_polygons(polygons: Vec<Polygon>, others: Vec<Polygon>) -> (r:
    TopologyResult)
    requires
        forall|i: int| 0 <= i < polygons@.len() ==> (#[trigger] polygons@[i]).wf(),
        forall|i: int| 0 <= i < others@.len() ==> (#[trigger] others@[i]).wf(),
    ensures
        ({
            let pvs = crate::geometry::poly_views(polygons@);
            let ovs = crate::geometry::poly_views(others@);
            &&& (r is Valid <==> (forall|w: Seq<Seq<Coord>>| !(#[trigger] cross_isect_piece(
                pvs,
                ovs,
                w,
            ))))
            &&& r is Errors ==> {
                let v = r->Errors_0@;
                &&& v.len() == 1
                &&& v[0] is Polygon
                &&& v[0]->Polygon_0@.len() > 0
                &&& distinct_poly_views(v[0]->Polygon_0@)
                &&& forall|w: Seq<Seq<Coord>>| #[trigger]
                    crate::geometry::poly_views(v[0]->Polygon_0@).contains(w)
                        <==> cross_isect_piece(pvs, ovs, w)
                &&& forall|k: int| 0 <= k < v[0]->Polygon_0@.len() ==> (
                #[trigger] v[0]->Polygon_0@[k]).wf()
            }
        }),
{
    let ghost pvs = crate::geometry::poly_views(polygons@);
    let ghost ovs = crate::geometry::poly_views(others@);
    let n: usize = polygons.len();
    let m: usize = others.len();
    let mut pieces: Vec<Polygon> = Vec::new();
    let mut i: usize = 0;
    proof {
        assert(pvs.len() == polygons@.len());
        assert(ovs.len() == others@.len());
    }
    while i < n
        invariant
            n == polygons@.len(),
            m == others@.len(),
            forall|x: int| 0 <= x < polygons@.len() ==> (#[trigger] polygons@[x]).wf(),
            forall|x: int| 0 <= x < others@.len() ==> (#[trigger] others@[x]).wf(),
            pvs == crate::geometry::poly_views(polygons@),
            ovs == crate::geometry::poly_views(others@),
            pvs.len() == n,
            ovs.len() == m,
            0 <= i <= n,
            forall|w: Seq<Seq<Coord>>| #[trigger]
                crate::geometry::poly_views(pieces@).contains(w) <==> cross_isect_piece_upto(
                    pvs,
                    ovs,
                    i as int,
                    0,
                    w,
                ),
            forall|x: int| 0 <= x < pieces@.len() ==> (#[trigger] pieces@[x]).wf(),
            distinct_poly_views(pieces@),
        decreases n - i,
    {
        let mut j: usize = 0;
        while j < m
            invariant
                n == polygons@.len(),
                m == others@.len(),
                forall|x: int| 0 <= x < polygons@.len() ==> (#[trigger] polygons@[x]).wf(),
                forall|x: int| 0 <= x < others@.len() ==> (#[trigger] others@[x]).wf(),
                pvs == crate::geometry::poly_views(polygons@),
                ovs == crate::geometry::poly_views(others@),
                pvs.len() == n,
                ovs.len() == m,
                0 <= i < n,
                0 <= j <= m,
                forall|w: Seq<Seq<Coord>>| #[trigger]
                    crate::geometry::poly_views(pieces@).contains(w) <==> cross_isect_piece_upto(
                        pvs,
                        ovs,
                        i as int,
                        j as int,
                        w,
                    ),
                forall|x: int| 0 <= x < pieces@.len() ==> (#[trigger] pieces@[x]).wf(),
                distinct_poly_views(pieces@),
            decreases m - j,
        {
            proof {
                assert(pvs[i as int] == polygons@[i as int]@);
                assert(ovs[j as int] == others@[j as int]@);
            }
            let subj = open_rings(&polygons[i]);
            let clip = open_rings(&others[j]);
            let shapes = int_overlay_intersect(&subj, &clip);
            let new_polys = close_shapes_exec(&shapes);
            let ghost pair = cross_isect(pvs, ovs, i as int, j as int);
            proof {
                assert(crate::geometry::poly_views(new_polys@) == pair);
            }
            let np: usize = new_polys.len();
            let mut q: usize = 0;
            proof {
                assert(crate::geometry::poly_views(new_polys@).len() == new_polys@.len());
            }
            while q < np
                invariant
                    np == new_polys@.len(),
                    pair == crate::geometry::poly_views(new_polys@),
                    forall|x: int| 0 <= x < np ==> (#[trigger] new_polys@[x]).wf(),
                    0 <= i < n,
                    0 <= j < m,
                    pvs.len() == n,
                    ovs.len() == m,
                    pair == cross_isect(pvs, ovs, i as int, j as int),
                    0 <= q <= np,
                    forall|w: Seq<Seq<Coord>>| #[trigger]
                        crate::geometry::poly_views(pieces@).contains(w) <==> (
                        cross_isect_piece_upto(pvs, ovs, i as int, j as int, w) || pair.take(
                            q as int,
                        ).contains(w)),
                    forall|x: int| 0 <= x < pieces@.len() ==> (#[trigger] pieces@[x]).wf(),
                    distinct_poly_views(pieces@),
                decreases np - q,
            {
                let ghost wq = pair[q as int];
                proof {
                    assert(new_polys@[q as int]@ == pair[q as int]);
                    assert(pair.take(q as int + 1)[q as int] == wq);
                    assert(forall|x: int|
                        0 <= x < q ==> pair.take(q as int)[x] == pair.take(q as int + 1)[x]);
                }
                let ghost before = pieces@;
                if !contains_poly(&pieces, &new_polys[q]) {
                    pieces.push(new_polys[q].clone());
                    proof {
                        assert(crate::geometry::poly_views(pieces@).len() == pieces@.len());
                        assert(crate::geometry::poly_views(before).len() == before.len());
                        assert(pieces@[before.len() as int]@ == wq);
                        assert forall|x1: int, x2: int|
                            0 <= x1 < x2 < pieces@.len() implies (#[trigger] pieces@[x1])@ != (
                        #[trigger] pieces@[x2])@ by {
                            if x2 == pieces@.len() - 1 {
                                assert(pieces@[x1] == before[x1]);
                                if pieces@[x1]@ == wq {
                                    assert(crate::geometry::poly_views(before)[x1]
                                        == before[x1]@);
                                    assert(crate::geometry::poly_views(before).contains(wq));
                                }
                            } else {
                                assert(pieces@[x1] == before[x1]);
                                assert(pieces@[x2] == before[x2]);
                            }
                        }
                        assert forall|w: Seq<Seq<Coord>>| #[trigger]
                            crate::geometry::poly_views(pieces@).contains(w) <==> (
                        crate::geometry::poly_views(before).contains(w) || w == wq) by {
                            if crate::geometry::poly_views(pieces@).contains(w) {
                                let x = choose|x: int|
                                    0 <= x < pieces@.len()
                                        && crate::geometry::poly_views(pieces@)[x] == w;
                                if x < before.len() {
                                    assert(crate::geometry::poly_views(before)[x] == before[x]@);
                                    assert(crate::geometry::poly_views(before).contains(w));
                                }
                            }
                            if crate::geometry::poly_views(before).contains(w) {
                                let x = choose|x: int|
                                    0 <= x < before.len() && crate::geometry::poly_views(
                                        before,
                                    )[x] == w;
                                assert(crate::geometry::poly_views(pieces@)[x] == w);
                            }
                            if w == wq {
                                assert(crate::geometry::poly_views(pieces@)[before.len() as int]
                                    == wq);
                            }
                        }
                    }
                }
                proof {
                    assert forall|w: Seq<Seq<Coord>>| #[trigger]
                        crate::geometry::poly_views(pieces@).contains(w) <==> (
                    cross_isect_piece_upto(pvs, ovs, i as int, j as int, w) || pair.take(
                        q as int + 1,
                    ).contains(w)) by {
                        if crate::geometry::poly_views(pieces@).contains(w) {
                            if w == wq {
                                assert(pair.take(q as int + 1)[q as int] == w);
                            } else {
                                assert(crate::geometry::poly_views(before).contains(w) || w == wq);
                                if pair.take(q as int).contains(w) {
                                    let x = choose|x: int|
                                        0 <= x < q && #[trigger] pair.take(q as int)[x] == w;
                                    assert(pair.take(q as int + 1)[x] == w);
                                }
                            }
                        } else {
                            if pair.take(q as int + 1).contains(w) {
                                let x = choose|x: int|
                                    0 <= x < q + 1 && #[trigger] pair.take(q as int + 1)[x] == w;
                                if x < q {
                                    assert(pair.take(q as int)[x] == w);
                                } else {
                                    assert(w == wq);
                                    assert(crate::geometry::poly_views(pieces@).contains(w));
                                }
                                assert(false);
                            }
                        }
                    }
                }
                q = q + 1;
            }
            proof {
                assert(pair.take(np as int) =~= pair);
                let gi = i as int;
                let gj = j as int;
                assert forall|w: Seq<Seq<Coord>>|
                    (cross_isect_piece_upto(pvs, ovs, gi, gj, w) || pair.contains(w))
                        == cross_isect_piece_upto(pvs, ovs, gi, gj + 1, w) by {
                    if cross_isect_piece_upto(pvs, ovs, gi, gj, w) {
                        let (a, b) = choose|a: int, b: int|
                            0 <= a < pvs.len() && 0 <= b < ovs.len() && pair_done(a, b, gi, gj)
                                && (#[trigger] cross_isect(pvs, ovs, a, b)).contains(w);
                        assert(pair_done(a, b, gi, gj + 1));
                        assert(cross_isect_piece_upto(pvs, ovs, gi, gj + 1, w));
                    } else if pair.contains(w) {
                        assert(pair_done(gi, gj, gi, gj + 1));
                        assert(cross_isect(pvs, ovs, gi, gj).contains(w));
                        assert(cross_isect_piece_upto(pvs, ovs, gi, gj + 1, w));
                    } else if cross_isect_piece_upto(pvs, ovs, gi, gj + 1, w) {
                        let (a, b) = choose|a: int, b: int|
                            0 <= a < pvs.len() && 0 <= b < ovs.len() && pair_done(a, b, gi, gj + 1)
                                && (#[trigger] cross_isect(pvs, ovs, a, b)).contains(w);
                        if a == gi && b == gj {
                            assert(pair.contains(w));
                        } else {
                            assert(pair_done(a, b, gi, gj));
                            assert(cross_isect_piece_upto(pvs, ovs, gi, gj, w));
                        }
                        assert(false);
                    }
                }
            }
            j = j + 1;
        }
        proof {
            let gi = i as int;
            assert forall|w: Seq<Seq<Coord>>|
                cross_isect_piece_upto(pvs, ovs, gi, m as int, w) == cross_isect_piece_upto(
                    pvs,
                    ovs,
                    gi + 1,
                    0,
                    w,
                ) by {
                if cross_isect_piece_upto(pvs, ovs, gi, m as int, w) {
                    let (a, b) = choose|a: int, b: int|
                        0 <= a < pvs.len() && 0 <= b < ovs.len() && pair_done(a, b, gi, m as int)
                            && (#[trigger] cross_isect(pvs, ovs, a, b)).contains(w);
                    assert(pair_done(a, b, gi + 1, 0));
                    assert(cross_isect_piece_upto(pvs, ovs, gi + 1, 0, w));
                }
                if cross_isect_piece_upto(pvs, ovs, gi + 1, 0, w) {
                    let (a, b) = choose|a: int, b: int|
                        0 <= a < pvs.len() && 0 <= b < ovs.len() && pair_done(a, b, gi + 1, 0) && (
                        #[trigger] cross_isect(pvs, ovs, a, b)).contains(w);
                    assert(pair_done(a, b, gi, m as int));
                    assert(cross_isect_piece_upto(pvs, ovs, gi, m as int, w));
                }
            }
        }
        i = i + 1;
    }
    proof {
        assert forall|w: Seq<Seq<Coord>>|
            cross_isect_piece_upto(pvs, ovs, n as int, 0, w) == cross_isect_piece(
                pvs,
                ovs,
                w,
            ) by {
            if cross_isect_piece_upto(pvs, ovs, n as int, 0, w) {
                let (a, b) = choose|a: int, b: int|
                    0 <= a < pvs.len() && 0 <= b < ovs.len() && pair_done(a, b, n as int, 0) && (
                    #[trigger] cross_isect(pvs, ovs, a, b)).contains(w);
                assert(cross_isect_piece(pvs, ovs, w));
            }
            if cross_isect_piece(pvs, ovs, w) {
                let (a, b) = choose|a: int, b: int|
                    0 <= a < pvs.len() && 0 <= b < ovs.len() && (#[trigger] cross_isect(
                        pvs,
                        ovs,
                        a,
                        b,
                    )).contains(w);
                assert(pair_done(a, b, n as int, 0));
                assert(cross_isect_piece_upto(pvs, ovs, n as int, 0, w));
            }
        }
    }
    if pieces.len() == 0 {
        proof {
            assert forall|w: Seq<Seq<Coord>>| !(#[trigger] cross_isect_piece(pvs, ovs, w)) by {
                if cross_isect_piece(pvs, ovs, w) {
                    assert(crate::geometry::poly_views(pieces@).contains(w));
                    let x = choose|x: int|
                        0 <= x < pieces@.len() && crate::geometry::poly_views(pieces@)[x] == w;
                }
            }
        }
        TopologyResult::Valid
    } else {
        proof {
            assert(crate::geometry::poly_views(pieces@).len() == pieces@.len());
            assert(crate::geometry::poly_views(pieces@)[0] == pieces@[0]@);
            assert(crate::geometry::poly_views(pieces@).contains(pieces@[0]@));
            assert(cross_isect_piece(pvs, ovs, pieces@[0]@));
        }
        let mut errors: Vec<TopologyError> = Vec::new();
        errors.push(TopologyError::Polygon(pieces));
        TopologyResult::Errors(errors)
    }
}

} // verus!
//! The planar intersection kernel.
//!
//! [`classify`] decides, exactly, how two grid segments meet: not at all, in a
//! single point that is an endpoint of at least one of them (an *improper*
//! intersection), in a single point interior to both (a *proper* crossing),
//! or in a collinear interval of positive length (an *overlap*).
//! [`intersections`] folds the classification over every unordered pair of a
//! segment collection and returns the three outcome sets, deduplicated.

use vstd::prelude::*;

use crate::coord::{
    cross, in_box, in_box_exec, lex_lt, lex_lt_exec, spec_cross, Coord, Segment,
};
use crate::rat::{rat_point, spec_rat_point, spec_sweep_of_coord, SweepPoint};

verus! {

/// How two segments meet.
#[derive(Clone, Copy, Debug, PartialEq, Eq, Structural)]
pub enum SegmentIntersection {
    /// The segments share no point.
    Disjoint,
    /// The segments share exactly one point, which is an endpoint of at
    /// least one of them.
    PointImproper(Coord),
    /// The segments cross in exactly one point interior to both.
    PointProper(SweepPoint),
    /// The segments are collinear and share an interval of positive length.
    Overlap(Segment),
}

/// The lexicographically smaller endpoint of a segment.
pub open spec fn seg_lo(s: Segment) -> Coord {
    if lex_lt(s.a, s.b) {
        s.a
    } else {
        s.b
    }
}

/// The lexicographically larger endpoint of a segment.
pub open spec fn seg_hi(s: Segment) -> Coord {
    if lex_lt(s.a, s.b) {
        s.b
    } else {
        s.a
    }
}

/// The crossing point of the supporting lines of `s1` and `s2`,
/// expressed over the orientation values `d1 = cross(s2.a, s2.b, s1.a)` and
/// `d2 = cross(s2.a, s2.b, s1.b)`: the point `s1.a + t * (s1.b - s1.a)` at
/// `t = d1 / (d1 - d2)`.
pub open spec fn spec_crossing_point(s1: Segment, s2: Segment) -> SweepPoint {
    let d1 = spec_cross(s2.a, s2.b, s1.a);
    let d2 = spec_cross(s2.a, s2.b, s1.b);
    let den = d1 - d2;
    let nx = s1.a.x * den + d1 * (s1.b.x - s1.a.x);
    let ny = s1.a.y * den + d1 * (s1.b.y - s1.a.y);
    spec_rat_point(nx, ny, den)
}

/// Exact classification of a segment pair.
///
/// Collinear segments that share an interval of positive length give
/// [`SegmentIntersection::Overlap`] over that interval; collinear segments
/// that only touch in one endpoint give that endpoint as an improper
/// intersection.  Non-collinear segments give an improper intersection when
/// an endpoint of one lies on the other, a proper crossing when their
/// interiors meet, and are disjoint otherwise.
#[verifier::opaque]
pub open spec fn spec_classify(s1: Segment, s2: Segment) -> SegmentIntersection {
    let d1 = spec_cross(s2.a, s2.b, s1.a);
    let d2 = spec_cross(s2.a, s2.b, s1.b);
    let d3 = spec_cross(s1.a, s1.b, s2.a);
    let d4 = spec_cross(s1.a, s1.b, s2.b);
    if d1 == 0 && d2 == 0 {
        let lo = if lex_lt(seg_lo(s1), seg_lo(s2)) {
            seg_lo(s2)
        } else {
            seg_lo(s1)
        };
        let hi = if lex_lt(seg_hi(s1), seg_hi(s2)) {
            seg_hi(s1)
        } else {
            seg_hi(s2)
        };
        if lex_lt(lo, hi) {
            SegmentIntersection::Overlap(Segment { a: lo, b: hi })
        } else if lo == hi {
            SegmentIntersection::PointImproper(lo)
        } else {
            SegmentIntersection::Disjoint
        }
    } else if d1 == 0 && in_box(s2.a, s2.b, s1.a) {
        SegmentIntersection::PointImproper(s1.a)
    } else if d2 == 0 && in_box(s2.a, s2.b, s1.b) {
        SegmentIntersection::PointImproper(s1.b)
    } else if d3 == 0 && in_box(s1.a, s1.b, s2.a) {
        SegmentIntersection::PointImproper(s2.a)
    } else if d4 == 0 && in_box(s1.a, s1.b, s2.b) {
        SegmentIntersection::PointImproper(s2.b)
    } else if ((d1 > 0 && d2 < 0) || (d1 < 0 && d2 > 0)) && ((d3 > 0 && d4 < 0) || (d3 < 0 && d4
        > 0)) {
        SegmentIntersection::PointProper(spec_crossing_point(s1, s2))
    } else {
        SegmentIntersection::Disjoint
    }
}

/// Run-time classification of a segment pair.
pub fn classify(s1: &Segment, s2: &Segment) -> (r: SegmentIntersection)
    requires
        s1.wf(),
        s2.wf(),
    ensures
        r == spec_classify(*s1, *s2),
{
    proof {
        reveal(crate::sweep::spec_classify);
    }
    let d1: i128 = cross(s2.a, s2.b, s1.a);
    let d2: i128 = cross(s2.a, s2.b, s1.b);
    let d3: i128 = cross(s1.a, s1.b, s2.a);
    let d4: i128 = cross(s1.a, s1.b, s2.b);
    if d1 == 0 && d2 == 0 {
        let lo1: Coord = if lex_lt_exec(s1.a, s1.b) {
            s1.a
        } else {
            s1.b
        };
        let hi1: Coord = if lex_lt_exec(s1.a, s1.b) {
            s1.b
        } else {
            s1.a
        };
        let lo2: Coord = if lex_lt_exec(s2.a, s2.b) {
            s2.a
        } else {
            s2.b
        };
        let hi2: Coord = if lex_lt_exec(s2.a, s2.b) {
            s2.b
        } else {
            s2.a
        };
        let lo: Coord = if lex_lt_exec(lo1, lo2) {
            lo2
        } else {
            lo1
        };
        let hi: Coord = if lex_lt_exec(hi1, hi2) {
            hi1
        } else {
            hi2
        };
        if lex_lt_exec(lo, hi) {
            SegmentIntersection::Overlap(Segment { a: lo, b: hi })
        } else if lo == hi {
            SegmentIntersection::PointImproper(lo)
        } else {
            SegmentIntersection::Disjoint
        }
    } else if d1 == 0 && in_box_exec(s2.a, s2.b, s1.a) {
        SegmentIntersection::PointImproper(s1.a)
    } else if d2 == 0 && in_box_exec(s2.a, s2.b, s1.b) {
        SegmentIntersection::PointImproper(s1.b)
    } else if d3 == 0 && in_box_exec(s1.a, s1.b, s2.a) {
        SegmentIntersection::PointImproper(s2.a)
    } else if d4 == 0 && in_box_exec(s1.a, s1.b, s2.b) {
        SegmentIntersection::PointImproper(s2.b)
    } else if ((d1 > 0 && d2 < 0) || (d1 < 0 && d2 > 0)) && ((d3 > 0 && d4 < 0) || (d3 < 0 && d4
        > 0)) {
        let den: i128 = d1 - d2;
        let dx: i128 = s1.b.x as i128 - s1.a.x as i128;
        let dy: i128 = s1.b.y as i128 - s1.a.y as i128;
        assert(-16_000_000_000_000_000_000_000_000i128 <= s1.a.x as i128 * den
            <= 16_000_000_000_000_000_000_000_000i128) by (nonlinear_arith)
            requires
                -100_000_000 <= s1.a.x as i128 <= 100_000_000,
                -160_000_000_000_000_000 <= den <= 160_000_000_000_000_000,
        ;
        assert(-16_000_000_000_000_000_000_000_000i128 <= s1.a.y as i128 * den
            <= 16_000_000_000_000_000_000_000_000i128) by (nonlinear_arith)
            requires
                -100_000_000 <= s1.a.y as i128 <= 100_000_000,
                -160_000_000_000_000_000 <= den <= 160_000_000_000_000_000,
        ;
        assert(-16_000_000_000_000_000_000_000_000i128 <= d1 * dx
            <= 16_000_000_000_000_000_000_000_000i128) by (nonlinear_arith)
            requires
                -80_000_000_000_000_000 <= d1 <= 80_000_000_000_000_000,
                -200_000_000 <= dx <= 200_000_000,
        ;
        assert(-16_000_000_000_000_000_000_000_000i128 <= d1 * dy
            <= 16_000_000_000_000_000_000_000_000i128) by (nonlinear_arith)
            requires
                -80_000_000_000_000_000 <= d1 <= 80_000_000_000_000_000,
                -200_000_000 <= dy <= 200_000_000,
        ;
        let nx: i128 = s1.a.x as i128 * den + d1 * dx;
        let ny: i128 = s1.a.y as i128 * den + d1 * dy;
        SegmentIntersection::PointProper(rat_point(nx, ny, den))
    } else {
        SegmentIntersection::Disjoint
    }
}

/// No two entries of the sequence are equal.
pub open spec fn no_dups<T>(s: Seq<T>) -> bool {
    forall|i: int, j: int| 0 <= i < j < s.len() ==> s[i] != s[j]
}

/// Every coordinate of every segment is well-formed and the endpoints of
/// each segment are distinct.
pub open spec fn segs_wf(segs: Seq<Segment>) -> bool {
    forall|i: int| 0 <= i < segs.len() ==> (#[trigger] segs[i]).wf()
}

/// Some unordered pair of distinct input segments overlaps in `s`.
pub open spec fn pair_overlap(segs: Seq<Segment>, s: Segment) -> bool {
    exists|i: int, j: int|
        0 <= i < j < segs.len() && #[trigger] spec_classify(segs[i], segs[j])
            == SegmentIntersection::Overlap(s)
}

/// Some unordered pair of distinct input segments crosses properly at `p`.
pub open spec fn pair_proper(segs: Seq<Segment>, p: SweepPoint) -> bool {
    exists|i: int, j: int|
        0 <= i < j < segs.len() && #[trigger] spec_classify(segs[i], segs[j])
            == SegmentIntersection::PointProper(p)
}

/// Some unordered pair of distinct input segments meets improperly at `c`.
pub open spec fn pair_improper(segs: Seq<Segment>, c: Coord) -> bool {
    exists|i: int, j: int|
        0 <= i < j < segs.len() && #[trigger] spec_classify(segs[i], segs[j])
            == SegmentIntersection::PointImproper(c)
}

/// The point `p` is a proper crossing of the segment set and its coordinate
/// carries no improper incidence: by the kernel's classification a
/// coordinate where any incidence is a segment endpoint counts as improper,
/// never as proper.
pub open spec fn proper_only(segs: Seq<Segment>, p: SweepPoint) -> bool {
    pair_proper(segs, p) && !(exists|c: Coord|
        p == spec_sweep_of_coord(c) && #[trigger] pair_improper(segs, c))
}

/// The pair `(a, b)` comes before the position `(i, j)` in the row-major
/// walk of the unordered pairs.
pub open spec fn pair_done(a: int, b: int, i: int, j: int) -> bool {
    a < i || (a == i && b < j)
}

/// [`pair_overlap`] restricted to the pairs before `(i, j)`.
pub open spec fn pair_overlap_upto(segs: Seq<Segment>, i: int, j: int, s: Segment) -> bool {
    exists|a: int, b: int|
        0 <= a < b < segs.len() && pair_done(a, b, i, j) && #[trigger] spec_classify(
            segs[a],
            segs[b],
        ) == SegmentIntersection::Overlap(s)
}

/// [`pair_proper`] restricted to the pairs before `(i, j)`.
pub open spec fn pair_proper_upto(segs: Seq<Segment>, i: int, j: int, p: SweepPoint) -> bool {
    exists|a: int, b: int|
        0 <= a < b < segs.len() && pair_done(a, b, i, j) && #[trigger] spec_classify(
            segs[a],
            segs[b],
        ) == SegmentIntersection::PointProper(p)
}

/// [`pair_improper`] restricted to the pairs before `(i, j)`.
pub open spec fn pair_improper_upto(segs: Seq<Segment>, i: int, j: int, c: Coord) -> bool {
    exists|a: int, b: int|
        0 <= a < b < segs.len() && pair_done(a, b, i, j) && #[trigger] spec_classify(
            segs[a],
            segs[b],
        ) == SegmentIntersection::PointImproper(c)
}

/// Whether a segment vector contains a given segment.
pub fn contains_seg(v: &Vec<Segment>, s: &Segment) -> (r: bool)
    ensures
        r == v@.contains(*s),
{
    let mut k: usize = 0;
    while k < v.len()
        invariant
            0 <= k <= v@.len(),
            forall|m: int| 0 <= m < k ==> v@[m] != *s,
        decreases v@.len() - k,
    {
        if v[k] == *s {
            return true;
        }
        k = k + 1;
    }
    false
}

/// Whether a sweep-point vector contains a given point.
pub fn contains_sweep(v: &Vec<SweepPoint>, p: &SweepPoint) -> (r: bool)
    ensures
        r == v@.contains(*p),
{
    let mut k: usize = 0;
    while k < v.len()
        invariant
            0 <= k <= v@.len(),
            forall|m: int| 0 <= m < k ==> v@[m] != *p,
        decreases v@.len() - k,
    {
        if v[k] == *p {
            return true;
        }
        k = k + 1;
    }
    false
}

/// Whether a coordinate vector contains a given coordinate.
pub fn contains_coord_vec(v: &Vec<Coord>, c: &Coord) -> (r: bool)
    ensures
        r == v@.contains(*c),
{
    let mut k: usize = 0;
    while k < v.len()
        invariant
            0 <= k <= v@.len(),
            forall|m: int| 0 <= m < k ==> v@[m] != *c,
        decreases v@.len() - k,
    {
        if v[k] == *c {
            return true;
        }
        k = k + 1;
    }
    false
}

/// Append a segment unless it is already present.
pub fn push_unique_seg(v: &mut Vec<Segment>, s: Segment)
    ensures
        forall|x: Segment| final(v)@.contains(x) <==> (old(v)@.contains(x) || x == s),
        no_dups(old(v)@) ==> no_dups(final(v)@),
{
    if !contains_seg(v, &s) {
        v.push(s);
        assert(forall|x: Segment|
            final(v)@.contains(x) <==> (old(v)@.contains(x) || x == s)) by {
            assert(final(v)@ == old(v)@.push(s));
            assert(forall|x: Segment| old(v)@.contains(x) ==> final(v)@.contains(x)) by {
                assert(forall|m: int| 0 <= m < old(v)@.len() ==> final(v)@[m] == old(v)@[m]);
            }
            assert(final(v)@[old(v)@.len() as int] == s);
        }
    }
}

/// Append a sweep point unless it is already present.
pub fn push_unique_sweep(v: &mut Vec<SweepPoint>, p: SweepPoint)
    ensures
        forall|x: SweepPoint| final(v)@.contains(x) <==> (old(v)@.contains(x) || x == p),
        no_dups(old(v)@) ==> no_dups(final(v)@),
{
    if !contains_sweep(v, &p) {
        v.push(p);
        assert(forall|x: SweepPoint|
            final(v)@.contains(x) <==> (old(v)@.contains(x) || x == p)) by {
            assert(final(v)@ == old(v)@.push(p));
            assert(forall|x: SweepPoint| old(v)@.contains(x) ==> final(v)@.contains(x)) by {
                assert(forall|m: int| 0 <= m < old(v)@.len() ==> final(v)@[m] == old(v)@[m]);
            }
            assert(final(v)@[old(v)@.len() as int] == p);
        }
    }
}

/// Append a coordinate unless it is already present.
pub fn push_unique_coord(v: &mut Vec<Coord>, c: Coord)
    ensures
        forall|x: Coord| final(v)@.contains(x) <==> (old(v)@.contains(x) || x == c),
        no_dups(old(v)@) ==> no_dups(final(v)@),
{
    if !contains_coord_vec(v, &c) {
        v.push(c);
        assert(forall|x: Coord| final(v)@.contains(x) <==> (old(v)@.contains(x) || x == c)) by {
            assert(final(v)@ == old(v)@.push(c));
            assert(forall|x: Coord| old(v)@.contains(x) ==> final(v)@.contains(x)) by {
                assert(forall|m: int| 0 <= m < old(v)@.len() ==> final(v)@[m] == old(v)@[m]);
            }
            assert(final(v)@[old(v)@.len() as int] == c);
        }
    }
}

/// Classify every unordered pair of distinct input segments and gather the
/// outcomes into three deduplicated sets: collinear overlap segments, proper
/// crossing points, and improper single-point intersections.
///
/// A coordinate appears in at most one of the two point sets: where three or
/// more segments are concurrent, the coordinate is improper as soon as one
/// incidence is a segment endpoint, and proper only when every incidence is
/// interior.
pub fn intersections(segments: &Vec<Segment>) -> (r: (Vec<Segment>, Vec<SweepPoint>, Vec<Coord>))
    requires
        segs_wf(segments@),
    ensures
        forall|s: Segment| r.0@.contains(s) <==> pair_overlap(segments@, s),
        forall|p: SweepPoint| r.1@.contains(p) <==> proper_only(segments@, p),
        forall|c: Coord| r.2@.contains(c) <==> pair_improper(segments@, c),
        no_dups(r.0@),
        no_dups(r.1@),
        no_dups(r.2@),
{
    let n: usize = segments.len();
    let mut overlaps: Vec<Segment> = Vec::new();
    let mut proper: Vec<SweepPoint> = Vec::new();
    let mut improper: Vec<Coord> = Vec::new();
    let mut i: usize = 0;
    while i < n
        invariant
            n == segments@.len(),
            segs_wf(segments@),
            0 <= i <= n,
            forall|s: Segment| overlaps@.contains(s) <==> pair_overlap_upto(
                segments@,
                i as int,
                i as int + 1,
                s,
            ),
            forall|p: SweepPoint| proper@.contains(p) <==> pair_proper_upto(
                segments@,
                i as int,
                i as int + 1,
                p,
            ),
            forall|c: Coord| improper@.contains(c) <==> pair_improper_upto(
                segments@,
                i as int,
                i as int + 1,
                c,
            ),
            no_dups(overlaps@),
            no_dups(proper@),
            no_dups(improper@),
        decreases n - i,
    {
        let mut j: usize = i + 1;
        while j < n
            invariant
                n == segments@.len(),
                segs_wf(segments@),
                0 <= i < n,
                i + 1 <= j <= n,
                forall|s: Segment| overlaps@.contains(s) <==> pair_overlap_upto(
                    segments@,
                    i as int,
                    j as int,
                    s,
                ),
                forall|p: SweepPoint| proper@.contains(p) <==> pair_proper_upto(
                    segments@,
                    i as int,
                    j as int,
                    p,
                ),
                forall|c: Coord| improper@.contains(c) <==> pair_improper_upto(
                    segments@,
                    i as int,
                    j as int,
                    c,
                ),
                no_dups(overlaps@),
                no_dups(proper@),
                no_dups(improper@),
            decreases n - j,
        {
            assert(segments@[i as int].wf());
            assert(segments@[j as int].wf());
            let outcome = classify(&segments[i], &segments[j]);
            match outcome {
                SegmentIntersection::Overlap(s) => {
                    push_unique_seg(&mut overlaps, s);
                },
                SegmentIntersection::PointProper(p) => {
                    push_unique_sweep(&mut proper, p);
                },
                SegmentIntersection::PointImproper(c) => {
                    push_unique_coord(&mut improper, c);
                },
                SegmentIntersection::Disjoint => {},
            }
            proof {
                let gi = i as int;
                let gj = j as int;
                assert forall|s: Segment| overlaps@.contains(s) implies pair_overlap_upto(
                    segments@,
                    gi,
                    gj + 1,
                    s,
                ) by {
                    if spec_classify(segments@[gi], segments@[gj])
                        == SegmentIntersection::Overlap(s) {
                        assert(pair_done(gi, gj, gi, gj + 1));
                    } else {
                        assert(pair_overlap_upto(segments@, gi, gj, s));
                        let (a, b) = choose|a: int, b: int|
                            0 <= a < b < segments@.len() && pair_done(a, b, gi, gj)
                                && #[trigger] spec_classify(segments@[a], segments@[b])
                                == SegmentIntersection::Overlap(s);
                        assert(pair_done(a, b, gi, gj + 1));
                    }
                }
                assert forall|s: Segment| pair_overlap_upto(segments@, gi, gj + 1, s)
                    implies overlaps@.contains(s) by {
                    let (a, b) = choose|a: int, b: int|
                        0 <= a < b < segments@.len() && pair_done(a, b, gi, gj + 1)
                            && #[trigger] spec_classify(segments@[a], segments@[b])
                            == SegmentIntersection::Overlap(s);
                    if a == gi && b == gj {
                    } else {
                        assert(pair_done(a, b, gi, gj));
                        assert(pair_overlap_upto(segments@, gi, gj, s));
                    }
                }
                assert forall|p: SweepPoint| proper@.contains(p) implies pair_proper_upto(
                    segments@,
                    gi,
                    gj + 1,
                    p,
                ) by {
                    if spec_classify(segments@[gi], segments@[gj])
                        == SegmentIntersection::PointProper(p) {
                        assert(pair_done(gi, gj, gi, gj + 1));
                    } else {
                        assert(pair_proper_upto(segments@, gi, gj, p));
                        let (a, b) = choose|a: int, b: int|
                            0 <= a < b < segments@.len() && pair_done(a, b, gi, gj)
                                && #[trigger] spec_classify(segments@[a], segments@[b])
                                == SegmentIntersection::PointProper(p);
                        assert(pair_done(a, b, gi, gj + 1));
                    }
                }
                assert forall|p: SweepPoint| pair_proper_upto(segments@, gi, gj + 1, p)
                    implies proper@.contains(p) by {
                    let (a, b) = choose|a: int, b: int|
                        0 <= a < b < segments@.len() && pair_done(a, b, gi, gj + 1)
                            && #[trigger] spec_classify(segments@[a], segments@[b])
                            == SegmentIntersection::PointProper(p);
                    if a == gi && b == gj {
                    } else {
                        assert(pair_done(a, b, gi, gj));
                        assert(pair_proper_upto(segments@, gi, gj, p));
                    }
                }
                assert forall|c: Coord| improper@.contains(c) implies pair_improper_upto(
                    segments@,
                    gi,
                    gj + 1,
                    c,
                ) by {
                    if spec_classify(segments@[gi], segments@[gj])
                        == SegmentIntersection::PointImproper(c) {
                        assert(pair_done(gi, gj, gi, gj + 1));
                    } else {
                        assert(pair_improper_upto(segments@, gi, gj, c));
                        let (a, b) = choose|a: int, b: int|
                            0 <= a < b < segments@.len() && pair_done(a, b, gi, gj)
                                && #[trigger] spec_classify(segments@[a], segments@[b])
                                == SegmentIntersection::PointImproper(c);
                        assert(pair_done(a, b, gi, gj + 1));
                    }
                }
                assert forall|c: Coord| pair_improper_upto(segments@, gi, gj + 1, c)
                    implies improper@.contains(c) by {
                    let (a, b) = choose|a: int, b: int|
                        0 <= a < b < segments@.len() && pair_done(a, b, gi, gj + 1)
                            && #[trigger] spec_classify(segments@[a], segments@[b])
                            == SegmentIntersection::PointImproper(c);
                    if a == gi && b == gj {
                    } else {
                        assert(pair_done(a, b, gi, gj));
                        assert(pair_improper_upto(segments@, gi, gj, c));
                    }
                }
            }
            j = j + 1;
        }
        proof {
            let gi = i as int;
            assert forall|s: Segment| pair_overlap_upto(segments@, gi, n as int, s)
                == pair_overlap_upto(segments@, gi + 1, gi + 2, s) by {
                lemma_upto_row_end(segments@, gi, n as int);
            }
            assert forall|p: SweepPoint| pair_proper_upto(segments@, gi, n as int, p)
                == pair_proper_upto(segments@, gi + 1, gi + 2, p) by {
                lemma_upto_row_end(segments@, gi, n as int);
            }
            assert forall|c: Coord| pair_improper_upto(segments@, gi, n as int, c)
                == pair_improper_upto(segments@, gi + 1, gi + 2, c) by {
                lemma_upto_row_end(segments@, gi, n as int);
            }
        }
        i = i + 1;
    }
    proof {
        assert forall|s: Segment| pair_overlap_upto(segments@, n as int, n as int + 1, s)
            == pair_overlap(segments@, s) by {
            lemma_upto_all(segments@, n as int);
        }
        assert forall|p: SweepPoint| pair_proper_upto(segments@, n as int, n as int + 1, p)
            == pair_proper(segments@, p) by {
            lemma_upto_all(segments@, n as int);
        }
        assert forall|c: Coord| pair_improper_upto(segments@, n as int, n as int + 1, c)
            == pair_improper(segments@, c) by {
            lemma_upto_all(segments@, n as int);
        }
    }
    // Keep a proper crossing point only when its coordinate carries no
    // improper incidence.
    let np: usize = proper.len();
    let mut filtered: Vec<SweepPoint> = Vec::new();
    let mut k: usize = 0;
    while k < np
        invariant
            np == proper@.len(),
            forall|p: SweepPoint| #[trigger] proper@.contains(p) <==> pair_proper(segments@, p),
            forall|c: Coord| #[trigger] improper@.contains(c) <==> pair_improper(segments@, c),
            no_dups(proper@),
            no_dups(improper@),
            0 <= k <= np,
            forall|p: SweepPoint| #[trigger]
                filtered@.contains(p) <==> (proper@.take(k as int).contains(p) && !(exists|
                    c: Coord,
                |
                    p == spec_sweep_of_coord(c) && #[trigger] pair_improper(segments@, c))),
            no_dups(filtered@),
        decreases np - k,
    {
        let ghost prefix = proper@.take(k as int);
        let ghost next = proper@.take(k as int + 1);
        proof {
            assert(next[k as int] == proper@[k as int]);
            assert(forall|m: int| 0 <= m < k ==> prefix[m] == next[m]);
            assert(forall|p: SweepPoint| prefix.contains(p) ==> next.contains(p));
        }
        let p = proper[k];
        let mut coincides: bool = false;
        let mut m: usize = 0;
        while m < improper.len()
            invariant
                0 <= m <= improper@.len(),
                coincides <==> (exists|q: int|
                    0 <= q < m && p == spec_sweep_of_coord(#[trigger] improper@[q])),
            decreases improper@.len() - m,
        {
            if SweepPoint::from_coord(improper[m]) == p {
                coincides = true;
            }
            m = m + 1;
        }
        proof {
            if coincides {
                let q = choose|q: int|
                    0 <= q < improper@.len() && p == spec_sweep_of_coord(#[trigger] improper@[q]);
                assert(improper@.contains(improper@[q]));
                assert(pair_improper(segments@, improper@[q]));
            } else {
                assert forall|c: Coord|
                    p == spec_sweep_of_coord(c) implies !(#[trigger] pair_improper(
                    segments@,
                    c,
                )) by {
                    if pair_improper(segments@, c) {
                        assert(improper@.contains(c));
                        let q = choose|q: int|
                            0 <= q < improper@.len() && improper@[q] == c;
                    }
                }
            }
        }
        if !coincides {
            push_unique_sweep(&mut filtered, p);
        }
        proof {
            let pk = proper@[k as int];
            assert forall|p2: SweepPoint| #[trigger] filtered@.contains(p2) implies (next.contains(
                p2,
            ) && !(exists|c: Coord|
                p2 == spec_sweep_of_coord(c) && #[trigger] pair_improper(segments@, c))) by {
                if !coincides && p2 == pk {
                } else {
                    assert(prefix.contains(p2));
                }
            }
            assert forall|p2: SweepPoint|
                (next.contains(p2) && !(exists|c: Coord|
                    p2 == spec_sweep_of_coord(c) && #[trigger] pair_improper(
                        segments@,
                        c,
                    ))) implies #[trigger] filtered@.contains(p2) by {
                let q = choose|q: int| 0 <= q < next.len() && next[q] == p2;
                if q == k as int {
                    assert(!coincides);
                } else {
                    assert(prefix[q] == p2);
                    assert(prefix.contains(p2));
                }
            }
        }
        k = k + 1;
    }
    proof {
        assert(proper@.take(np as int) =~= proper@);
        assert forall|p: SweepPoint| #[trigger] filtered@.contains(p) <==> proper_only(
            segments@,
            p,
        ) by {}
    }
    (overlaps, filtered, improper)
}

/// At the end of row `i` the processed pairs are exactly those processed at
/// the start of row `i + 1`.
proof fn lemma_upto_row_end(segs: Seq<Segment>, i: int, n: int)
    requires
        n == segs.len(),
    ensures
        forall|a: int, b: int|
            a < b < n ==> (#[trigger] pair_done(a, b, i, n) == pair_done(a, b, i + 1, i + 2)),
{
}

/// After the last row every unordered pair has been processed.
proof fn lemma_upto_all(segs: Seq<Segment>, n: int)
    requires
        n == segs.len(),
    ensures
        forall|a: int, b: int| 0 <= a < b < n ==> #[trigger] pair_done(a, b, n, n + 1),
{
}

} // verus!

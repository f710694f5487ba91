//! Iterative linestring merging: linestrings that touch another linestring
//! at a uniquely-shared endpoint are joined, until a pass leaves the number
//! of live linestrings unchanged.

use vstd::prelude::*;

use crate::coord::{lex_lt, Coord, Segment};
use crate::geometry::{ls_closed, ls_segments, ls_wf, LineString};
use crate::sweep::{classify, no_dups, spec_classify, SegmentIntersection};
use vstd::multiset::Multiset;
use vstd::seq_lib::lemma_multiset_commutative;

verus! {

broadcast use vstd::multiset::group_multiset_axioms;

/// The coordinates in reverse order.
pub open spec fn rev(c: Seq<Coord>) -> Seq<Coord> {
    Seq::new(c.len(), |i: int| c[c.len() - 1 - i])
}

/// Reverse a coordinate vector.
fn reversed(v: &Vec<Coord>) -> (r: Vec<Coord>)
    ensures
        r@ == rev(v@),
{
    let mut r: Vec<Coord> = Vec::new();
    let n: usize = v.len();
    let mut i: usize = 0;
    while i < n
        invariant
            n == v@.len(),
            0 <= i <= n,
            r@.len() == i,
            forall|k: int| 0 <= k < i ==> r@[k] == v@[n - 1 - k],
        decreases n - i,
    {
        r.push(v[n - 1 - i]);
        i = i + 1;
    }
    proof {
        assert(r@ =~= rev(v@));
    }
    r
}

/// Append `src[from..]` to `dst`.
fn extend_from(dst: &mut Vec<Coord>, src: &Vec<Coord>, from: usize)
    requires
        from <= src@.len(),
    ensures
        final(dst)@ == old(dst)@ + src@.skip(from as int),
{
    let mut i: usize = from;
    while i < src.len()
        invariant
            from <= i <= src@.len(),
            dst@ == old(dst)@ + src@.subrange(from as int, i as int),
        decreases src@.len() - i,
    {
        dst.push(src[i]);
        proof {
            assert(dst@ =~= old(dst)@ + src@.subrange(from as int, i + 1));
        }
        i = i + 1;
    }
    proof {
        assert(dst@ =~= old(dst)@ + src@.skip(from as int));
    }
}

/// Two well-formed runs joined at a shared coordinate stay well-formed when
/// the duplicate coordinate is dropped.
proof fn lemma_join_wf(a: Seq<Coord>, b: Seq<Coord>)
    requires
        ls_wf(a),
        ls_wf(b),
        a[a.len() - 1] == b[0],
    ensures
        ls_wf(a + b.skip(1)),
{
    let j = a + b.skip(1);
    assert(j.len() == a.len() + b.len() - 1);
    assert forall|i: int| 0 <= i < j.len() implies (#[trigger] j[i]).wf() by {
        if i < a.len() {
            assert(j[i] == a[i]);
        } else {
            assert(j[i] == b[i - a.len() + 1]);
        }
    }
    assert forall|i: int| 0 <= i < j.len() - 1 implies #[trigger] j[i] != j[i + 1] by {
        if i + 1 < a.len() {
            assert(j[i] == a[i] && j[i + 1] == a[i + 1]);
        } else if i + 1 == a.len() {
            assert(j[i] == a[a.len() - 1]);
            assert(j[i + 1] == b[1]);
            assert(b[0] != b[1]);
        } else {
            assert(j[i] == b[i - a.len() + 1] && j[i + 1] == b[i - a.len() + 2]);
        }
    }
}

/// Reversal preserves well-formedness.
proof fn lemma_rev_wf(a: Seq<Coord>)
    requires
        ls_wf(a),
    ensures
        ls_wf(rev(a)),
        rev(a)[rev(a).len() - 1] == a[0],
        rev(a)[0] == a[a.len() - 1],
{
    let r = rev(a);
    assert forall|i: int| 0 <= i < r.len() implies (#[trigger] r[i]).wf() by {
        assert(r[i] == a[a.len() - 1 - i]);
    }
    assert forall|i: int| 0 <= i < r.len() - 1 implies #[trigger] r[i] != r[i + 1] by {
        let m = a.len() - 1 - i;
        assert(r[i] == a[m]);
        assert(r[i + 1] == a[m - 1]);
        assert(a[m - 1] != a[m]);
    }
}

/// A segment with its endpoints in lexicographic order: the undirected view
/// of a constituent segment.
pub open spec fn useg(s: Segment) -> Segment {
    if lex_lt(s.a, s.b) {
        s
    } else {
        Segment { a: s.b, b: s.a }
    }
}

/// The undirected constituent segments of a coordinate run.
pub open spec fn usegs(c: Seq<Coord>) -> Seq<Segment> {
    ls_segments(c).map_values(|s: Segment| useg(s))
}

/// The multiset of undirected constituent segments of a linestring list.
pub open spec fn lss_usegs(lss: Seq<LineString>) -> Multiset<Segment>
    decreases lss.len(),
{
    if lss.len() == 0 {
        Multiset::empty()
    } else {
        lss_usegs(lss.drop_last()).add(usegs(lss.last()@).to_multiset())
    }
}

/// The contribution of one working-set slot to the segment multiset.
pub open spec fn slot_usegs(slot: Option<LineString>) -> Multiset<Segment> {
    match slot {
        Some(l) => usegs(l@).to_multiset(),
        None => Multiset::empty(),
    }
}

/// The multiset of undirected constituent segments of the live slots.
pub open spec fn slots_usegs(slots: Seq<Option<LineString>>) -> Multiset<Segment>
    decreases slots.len(),
{
    if slots.len() == 0 {
        Multiset::empty()
    } else {
        slots_usegs(slots.drop_last()).add(slot_usegs(slots.last()))
    }
}

/// Flipping a segment leaves its undirected view unchanged.
proof fn lemma_useg_flip(p: Coord, q: Coord)
    ensures
        useg(Segment { a: p, b: q }) == useg(Segment { a: q, b: p }),
{
}

/// Joining two runs at a shared coordinate concatenates their segments.
proof fn lemma_segments_concat(a: Seq<Coord>, b: Seq<Coord>)
    requires
        a.len() >= 1,
        b.len() >= 1,
        a[a.len() - 1] == b[0],
    ensures
        ls_segments(a + b.skip(1)) =~= ls_segments(a) + ls_segments(b),
{
    let j = a + b.skip(1);
    assert forall|i: int| 0 <= i < j.len() - 1 implies #[trigger] ls_segments(j)[i]
        == (ls_segments(a) + ls_segments(b))[i] by {
        if i < a.len() - 1 {
            assert(j[i] == a[i]);
            assert(j[i + 1] == a[i + 1]);
        } else if i == a.len() - 1 {
            assert(j[i] == a[a.len() - 1]);
            assert(j[i + 1] == b[1]);
        } else {
            assert(j[i] == b[i - a.len() + 1]);
            assert(j[i + 1] == b[i - a.len() + 2]);
        }
    }
}

/// Joining two runs at a shared coordinate adds their undirected segment
/// multisets.
proof fn lemma_usegs_concat(a: Seq<Coord>, b: Seq<Coord>)
    requires
        a.len() >= 1,
        b.len() >= 1,
        a[a.len() - 1] == b[0],
    ensures
        usegs(a + b.skip(1)).to_multiset() == usegs(a).to_multiset().add(usegs(b).to_multiset()),
{
    lemma_segments_concat(a, b);
    assert(usegs(a + b.skip(1)) =~= usegs(a) + usegs(b)) by {
        assert forall|i: int| 0 <= i < usegs(a + b.skip(1)).len() implies #[trigger] usegs(
            a + b.skip(1),
        )[i] == (usegs(a) + usegs(b))[i] by {
            assert(usegs(a + b.skip(1))[i] == useg(ls_segments(a + b.skip(1))[i]));
            if i < a.len() - 1 {
                assert((usegs(a) + usegs(b))[i] == useg(ls_segments(a)[i]));
            } else {
                assert((usegs(a) + usegs(b))[i] == useg(ls_segments(b)[i - (a.len() - 1)]));
            }
        }
    }
    lemma_multiset_commutative(usegs(a), usegs(b));
}

/// Reversal preserves the undirected segment multiset.
proof fn lemma_usegs_rev(a: Seq<Coord>)
    requires
        a.len() >= 1,
    ensures
        usegs(rev(a)).to_multiset() == usegs(a).to_multiset(),
{
    let n = a.len();
    assert(usegs(rev(a)) =~= usegs(a).reverse()) by {
        assert forall|i: int| 0 <= i < usegs(rev(a)).len() implies #[trigger] usegs(rev(a))[i]
            == usegs(a).reverse()[i] by {
            assert(usegs(rev(a))[i] == useg(ls_segments(rev(a))[i]));
            assert(ls_segments(rev(a))[i] == (Segment { a: rev(a)[i], b: rev(a)[i + 1] }));
            assert(rev(a)[i] == a[n - 1 - i]);
            assert(rev(a)[i + 1] == a[n - 2 - i]);
            assert(usegs(a).reverse()[i] == usegs(a)[n - 2 - i]);
            assert(usegs(a)[n - 2 - i] == useg(ls_segments(a)[n - 2 - i]));
            assert(ls_segments(a)[n - 2 - i] == (Segment { a: a[n - 2 - i], b: a[n - 1 - i] }));
            lemma_useg_flip(a[n - 1 - i], a[n - 2 - i]);
        }
    }
    usegs(a).lemma_reverse_to_multiset();
}

/// Two multisets with a common summand cancel.
proof fn lemma_multiset_cancel<T>(x: Multiset<T>, y: Multiset<T>, z: Multiset<T>)
    requires
        x.add(z) == y.add(z),
    ensures
        x == y,
{
    assert forall|e: T| #[trigger] x.count(e) == y.count(e) by {
        assert(x.add(z).count(e) == x.count(e) + z.count(e));
        assert(y.add(z).count(e) == y.count(e) + z.count(e));
    }
    assert(x =~= y);
}

/// Join two linestrings that share an endpoint coordinate, traversing the
/// first toward the shared coordinate and the second away from it; `None`
/// when no endpoints coincide.
pub fn merge_two(a: &LineString, b: &LineString) -> (r: Option<LineString>)
    requires
        a.wf(),
        b.wf(),
    ensures
        match r {
            Some(m) => {
                &&& m.wf()
                &&& usegs(m@).to_multiset() == usegs(a@).to_multiset().add(
                    usegs(b@).to_multiset(),
                )
                &&& if a@[0] == b@[0] {
                    m@ == rev(a@) + b@.skip(1)
                } else if a@[a@.len() - 1] == b@[0] {
                    m@ == a@ + b@.skip(1)
                } else if a@[a@.len() - 1] == b@[b@.len() - 1] {
                    m@ == a@ + rev(b@).skip(1)
                } else {
                    a@[0] == b@[b@.len() - 1] && m@ == b@ + a@.skip(1)
                }
            },
            None => {
                &&& a@[0] != b@[0]
                &&& a@[a@.len() - 1] != b@[0]
                &&& a@[a@.len() - 1] != b@[b@.len() - 1]
                &&& a@[0] != b@[b@.len() - 1]
            },
        },
{
    let a_first = a.first();
    let a_last = a.last();
    let b_first = b.first();
    let b_last = b.last();
    if a_first == b_first {
        let mut coords = reversed(&a.coords);
        proof {
            lemma_rev_wf(a@);
            lemma_join_wf(rev(a@), b@);
            lemma_usegs_concat(rev(a@), b@);
            lemma_usegs_rev(a@);
        }
        extend_from(&mut coords, &b.coords, 1);
        Some(LineString { coords })
    } else if a_last == b_first {
        let mut coords = crate::geometry::clone_coord_vec(&a.coords);
        proof {
            lemma_join_wf(a@, b@);
            lemma_usegs_concat(a@, b@);
        }
        extend_from(&mut coords, &b.coords, 1);
        Some(LineString { coords })
    } else if a_last == b_last {
        let mut coords = crate::geometry::clone_coord_vec(&a.coords);
        let rb = reversed(&b.coords);
        proof {
            lemma_rev_wf(b@);
            lemma_join_wf(a@, rev(b@));
            lemma_usegs_concat(a@, rev(b@));
            lemma_usegs_rev(b@);
        }
        extend_from(&mut coords, &rb, 1);
        Some(LineString { coords })
    } else if a_first == b_last {
        let mut coords = crate::geometry::clone_coord_vec(&b.coords);
        proof {
            lemma_join_wf(b@, a@);
            lemma_usegs_concat(b@, a@);
            assert(usegs(b@).to_multiset().add(usegs(a@).to_multiset()) =~= usegs(
                a@,
            ).to_multiset().add(usegs(b@).to_multiset()));
        }
        extend_from(&mut coords, &a.coords, 1);
        Some(LineString { coords })
    } else {
        None
    }
}

/// Some segment of `a` meets some segment of `b`.
pub open spec fn ls_intersects(a: Seq<Coord>, b: Seq<Coord>) -> bool {
    exists|i: int, j: int|
        0 <= i < ls_segments(a).len() && 0 <= j < ls_segments(b).len() && !(spec_classify(
            #[trigger] ls_segments(a)[i],
            #[trigger] ls_segments(b)[j],
        ) is Disjoint)
}

/// Whether two linestrings meet anywhere.
pub fn linestrings_intersect(a: &LineString, b: &LineString) -> (r: bool)
    requires
        a.wf(),
        b.wf(),
    ensures
        r == ls_intersects(a@, b@),
{
    let asegs = a.segments();
    let bsegs = b.segments();
    let na: usize = asegs.len();
    let nb: usize = bsegs.len();
    let mut i: usize = 0;
    while i < na
        invariant
            a.wf(),
            b.wf(),
            asegs@ == ls_segments(a@),
            bsegs@ == ls_segments(b@),
            na == asegs@.len(),
            nb == bsegs@.len(),
            0 <= i <= na,
            forall|i2: int, j2: int|
                0 <= i2 < i && 0 <= j2 < nb ==> spec_classify(
                    #[trigger] ls_segments(a@)[i2],
                    #[trigger] ls_segments(b@)[j2],
                ) is Disjoint,
        decreases na - i,
    {
        let mut j: usize = 0;
        while j < nb
            invariant
                a.wf(),
                b.wf(),
                asegs@ == ls_segments(a@),
                bsegs@ == ls_segments(b@),
                na == asegs@.len(),
                nb == bsegs@.len(),
                0 <= i < na,
                0 <= j <= nb,
                forall|j2: int|
                    0 <= j2 < j ==> spec_classify(
                        ls_segments(a@)[i as int],
                        #[trigger] ls_segments(b@)[j2],
                    ) is Disjoint,
            decreases nb - j,
        {
            proof {
                crate::rule::must_not_overlap::lemma_ls_segments_wf(a@);
                crate::rule::must_not_overlap::lemma_ls_segments_wf(b@);
            }
            match classify(&asegs[i], &bsegs[j]) {
                SegmentIntersection::Disjoint => {},
                _ => {
                    return true;
                },
            }
            j = j + 1;
        }
        i = i + 1;
    }
    false
}

/// Every segment of `b` lies within some segment of `a`: `b` runs along the
/// ring `a`.
pub open spec fn ls_covers(a: Seq<Coord>, b: Seq<Coord>) -> bool {
    forall|j: int|
        0 <= j < ls_segments(b).len() ==> crate::rule::must_not_overlap::contained_in_some(
            ls_segments(a),
            #[trigger] ls_segments(b)[j],
        )
}

/// Whether every segment of `b` lies within a segment of `a`.
fn ls_covers_exec(a: &LineString, b: &LineString) -> (r: bool)
    requires
        a.wf(),
        b.wf(),
    ensures
        r == ls_covers(a@, b@),
{
    let asegs = a.segments();
    let bsegs = b.segments();
    let na: usize = asegs.len();
    let nb: usize = bsegs.len();
    let mut j: usize = 0;
    while j < nb
        invariant
            a.wf(),
            b.wf(),
            asegs@ == ls_segments(a@),
            bsegs@ == ls_segments(b@),
            na == asegs@.len(),
            nb == bsegs@.len(),
            0 <= j <= nb,
            forall|j2: int|
                0 <= j2 < j ==> crate::rule::must_not_overlap::contained_in_some(
                    ls_segments(a@),
                    #[trigger] ls_segments(b@)[j2],
                ),
        decreases nb - j,
    {
        let mut hit: bool = false;
        let mut i: usize = 0;
        while i < na
            invariant
                a.wf(),
                b.wf(),
                asegs@ == ls_segments(a@),
                bsegs@ == ls_segments(b@),
                na == asegs@.len(),
                nb == bsegs@.len(),
                0 <= j < nb,
                0 <= i <= na,
                hit <==> (exists|i2: int|
                    0 <= i2 < i && (#[trigger] ls_segments(a@)[i2]).spec_contains_segment(
                        ls_segments(b@)[j as int],
                    )),
            decreases na - i,
        {
            proof {
                crate::rule::must_not_overlap::lemma_ls_segments_wf(a@);
                crate::rule::must_not_overlap::lemma_ls_segments_wf(b@);
            }
            if asegs[i].contains_segment(&bsegs[j]) {
                hit = true;
            }
            i = i + 1;
        }
        if !hit {
            proof {
                assert(!crate::rule::must_not_overlap::contained_in_some(
                    ls_segments(a@),
                    ls_segments(b@)[j as int],
                )) by {
                    if crate::rule::must_not_overlap::contained_in_some(
                        ls_segments(a@),
                        ls_segments(b@)[j as int],
                    ) {
                        let i2 = choose|i2: int|
                            0 <= i2 < ls_segments(a@).len() && (#[trigger] ls_segments(
                                a@,
                            )[i2]).spec_contains_segment(ls_segments(b@)[j as int]);
                    }
                }
            }
            return false;
        }
        j = j + 1;
    }
    true
}

/// A rotation of a closed ring preserves/// A rotation of a closed ring preserves its undirected segment multiset:
/// the rotated ring's segments are a cyclic permutation of the original's.
proof fn lemma_rotation_multiset(rv: Seq<Coord>, c: Seq<Coord>, k: int)
    requires
        ls_wf(rv),
        ls_closed(rv),
        0 <= k < rv.len() - 1,
        c == rv.subrange(k, rv.len() - 1) + rv.subrange(0, k + 1),
    ensures
        usegs(c).to_multiset() == usegs(rv).to_multiset(),
{
    let n = rv.len();
    assert(c.len() == n);
    assert(usegs(c) =~= usegs(rv).subrange(k, n - 1) + usegs(rv).subrange(0, k)) by {
        assert forall|m: int| 0 <= m < usegs(c).len() implies #[trigger] usegs(c)[m] == (usegs(
            rv,
        ).subrange(k, n - 1) + usegs(rv).subrange(0, k))[m] by {
            assert(usegs(c)[m] == useg(ls_segments(c)[m]));
            assert(ls_segments(c)[m] == (Segment { a: c[m], b: c[m + 1] }));
            if m < n - 1 - k - 1 {
                assert(c[m] == rv[k + m]);
                assert(c[m + 1] == rv[k + m + 1]);
                assert(usegs(rv).subrange(k, n - 1)[m] == useg(ls_segments(rv)[k + m]));
            } else if m == n - 1 - k - 1 {
                assert(c[m] == rv[n - 2]);
                assert(c[m + 1] == rv[0]);
                assert(rv[n - 1] == rv[0]);
                assert(usegs(rv).subrange(k, n - 1)[m] == useg(ls_segments(rv)[n - 2]));
                assert(ls_segments(rv)[n - 2] == (Segment { a: rv[n - 2], b: rv[n - 1] }));
            } else {
                assert(c[m] == rv[m - (n - 1 - k)]);
                assert(c[m + 1] == rv[m + 1 - (n - 1 - k)]);
                assert((usegs(rv).subrange(k, n - 1) + usegs(rv).subrange(0, k))[m] == useg(
                    ls_segments(rv)[m - (n - 1 - k)],
                ));
            }
        }
    }
    lemma_multiset_commutative(usegs(rv).subrange(k, n - 1), usegs(rv).subrange(0, k));
    assert(usegs(rv) =~= usegs(rv).subrange(0, k) + usegs(rv).subrange(k, n - 1));
    lemma_multiset_commutative(usegs(rv).subrange(0, k), usegs(rv).subrange(k, n - 1));
    assert(usegs(rv).subrange(k, n - 1).to_multiset().add(
        usegs(rv).subrange(0, k).to_multiset(),
    ) =~= usegs(rv).subrange(0, k).to_multiset().add(usegs(rv).subrange(k, n - 1).to_multiset()));
}

pub fn rotate_start_point(ring: &LineString, at: Coord) -> (r: LineString)
    requires
        ring.wf(),
        ls_closed(ring@),
        exists|k: int| 0 <= k < ring@.len() && ring@[k] == at,
    ensures
        r.wf(),
        ls_closed(r@),
        r@[0] == at,
        r@[r@.len() - 1] == at,
        r@.len() == ring@.len(),
        exists|k: int|
            0 <= k < ring@.len() - 1 && ring@[k] == at && r@ == ring@.subrange(
                k,
                ring@.len() - 1,
            ) + ring@.subrange(0, k + 1),
        usegs(r@).to_multiset() == usegs(ring@).to_multiset(),
{
    let n: usize = ring.coords.len();
    let k: usize = find_first_vertex(ring, at);
    if k >= n - 1 {
        // `at` can only be the closing coordinate, equal to the first.
        let r = ring.clone();
        proof {
            let m = choose|m: int| 0 <= m < ring@.len() && ring@[m] == at;
            assert(m == n - 1);
            assert(ring@[0] == ring@[ring@.len() - 1]);
            assert(r@ =~= ring@.subrange(0, ring@.len() - 1) + ring@.subrange(0, 1));
            lemma_rotation_multiset(
                ring@,
                ring@.subrange(0, ring@.len() - 1) + ring@.subrange(0, 1),
                0,
            );
        }
        return r;
    }
    // The rotated ring: coords[k..n-1], then coords[0..k], then coords[k].
    let mut coords: Vec<Coord> = Vec::new();
    let mut i: usize = k;
    while i < n - 1
        invariant
            ring.wf(),
            n == ring@.len(),
            0 <= k < n - 1,
            k <= i <= n - 1,
            coords@ == ring@.subrange(k as int, i as int),
        decreases n - i,
    {
        coords.push(ring.coords[i]);
        proof {
            assert(coords@ =~= ring@.subrange(k as int, i + 1));
        }
        i = i + 1;
    }
    let mut i2: usize = 0;
    while i2 < k
        invariant
            ring.wf(),
            n == ring@.len(),
            0 <= k < n - 1,
            0 <= i2 <= k,
            coords@ == ring@.subrange(k as int, n - 1) + ring@.subrange(0, i2 as int),
        decreases k - i2,
    {
        coords.push(ring.coords[i2]);
        proof {
            assert(coords@ =~= ring@.subrange(k as int, n - 1) + ring@.subrange(0, i2 + 1));
        }
        i2 = i2 + 1;
    }
    coords.push(ring.coords[k]);
    proof {
        let c = coords@;
        let rv = ring@;
        assert(c.len() == rv.len());
        assert(c[0] == rv[k as int]);
        assert(c[c.len() - 1] == rv[k as int]);
        assert forall|m: int| 0 <= m < c.len() implies (#[trigger] c[m]).wf() by {
            if m < n - 1 - k {
                assert(c[m] == rv[k + m]);
            } else if m < c.len() - 1 {
                assert(c[m] == rv[m - (n - 1 - k)]);
            } else {
                assert(c[m] == rv[k as int]);
            }
        }
        assert forall|m: int| 0 <= m < c.len() - 1 implies #[trigger] c[m] != c[m + 1] by {
            if m + 1 < n - 1 - k {
                assert(c[m] == rv[k + m] && c[m + 1] == rv[k + m + 1]);
            } else if m + 1 == n - 1 - k {
                // Seam between the tail of the ring and its head: the pair
                // (last distinct coordinate, first coordinate) is adjacent in
                // the original ring because first == last.
                assert(c[m] == rv[n - 2]);
                if k == 0 {
                    assert(c[m + 1] == rv[k as int]);
                    assert(rv[n - 2] != rv[n - 1]);
                    assert(rv[n - 1] == rv[0]);
                } else {
                    assert(c[m + 1] == rv[0]);
                    assert(rv[n - 2] != rv[n - 1]);
                    assert(rv[n - 1] == rv[0]);
                }
            } else if m + 1 < c.len() - 1 {
                assert(c[m] == rv[m - (n - 1 - k)] && c[m + 1] == rv[m + 1 - (n - 1 - k)]);
            } else {
                // Closing coordinate: it follows coords[k - 1].
                assert(c[m + 1] == rv[k as int]);
                if k == 0 {
                    assert(c[m] == rv[n - 2]);
                    assert(rv[n - 2] != rv[n - 1]);
                    assert(rv[n - 1] == rv[0]);
                } else {
                    assert(c[m] == rv[k - 1]);
                    assert(rv[k - 1] != rv[k as int]);
                }
            }
        }
        assert(ls_wf(c));
        assert(ls_closed(c));
        assert(c =~= rv.subrange(k as int, n - 1) + rv.subrange(0, k as int + 1));
        lemma_rotation_multiset(rv, c, k as int);
    }
    LineString { coords }
}

/// The index of the first vertex of the ring equal to `at`, or the index of
/// the closing coordinate when only it matches.
fn find_first_vertex(ring: &LineString, at: Coord) -> (k: usize)
    requires
        ring.wf(),
    ensures
        k <= ring@.len() - 1,
        k < ring@.len() - 1 ==> ring@[k as int] == at,
        forall|m: int| 0 <= m < k ==> ring@[m] != at,
{
    let n: usize = ring.coords.len();
    let mut k: usize = 0;
    while k < n - 1
        invariant
            ring.wf(),
            n == ring@.len(),
            0 <= k <= n - 1,
            forall|m: int| 0 <= m < k ==> ring@[m] != at,
        decreases n - k,
    {
        if ring.coords[k] == at {
            return k;
        }
        k = k + 1;
    }
    n - 1
}

/// How many slots hold a linestring.
pub open spec fn live_count(slots: Seq<Option<LineString>>) -> nat
    decreases slots.len(),
{
    if slots.len() == 0 {
        0
    } else {
        live_count(slots.drop_last()) + (if slots.last() is Some {
            1nat
        } else {
            0nat
        })
    }
}

/// Every present slot holds a well-formed linestring.
pub open spec fn slots_wf(slots: Seq<Option<LineString>>) -> bool {
    forall|i: int|
        0 <= i < slots.len() && slots[i] is Some ==> ((#[trigger] slots[i])->0).wf()
}

/// Updating one slot changes the live count by the difference of the two
/// slot states.
proof fn lemma_live_count_update(slots: Seq<Option<LineString>>, i: int, v: Option<LineString>)
    requires
        0 <= i < slots.len(),
    ensures
        live_count(slots.update(i, v)) == live_count(slots) + (if v is Some {
            1int
        } else {
            0int
        }) - (if slots[i] is Some {
            1int
        } else {
            0int
        }),
    decreases slots.len(),
{
    let updated = slots.update(i, v);
    if i == slots.len() - 1 {
        assert(updated.drop_last() =~= slots.drop_last());
        assert(updated.last() == v);
    } else {
        lemma_live_count_update(slots.drop_last(), i, v);
        assert(updated.drop_last() =~= slots.drop_last().update(i, v));
        assert(updated.last() == slots.last());
    }
}

/// Count the live slots.
fn live_count_exec(slots: &Vec<Option<LineString>>) -> (n: usize)
    ensures
        n == live_count(slots@),
{
    let mut n: usize = 0;
    let mut i: usize = 0;
    while i < slots.len()
        invariant
            0 <= i <= slots@.len(),
            n == live_count(slots@.take(i as int)),
            n <= i,
        decreases slots@.len() - i,
    {
        proof {
            assert(slots@.take(i + 1).drop_last() =~= slots@.take(i as int));
            assert(slots@.take(i + 1).last() == slots@[i as int]);
        }
        match &slots[i] {
            Some(_) => {
                n = n + 1;
            },
            None => {},
        }
        i = i + 1;
    }
    proof {
        assert(slots@.take(slots@.len() as int) =~= slots@);
    }
    n
}

/// A live slot that meets the linestring and touches the coordinate `c`.
pub open spec fn slot_touches(slot: Option<LineString>, lv: Seq<Coord>, c: Coord) -> bool {
    match slot {
        Some(o) => ls_intersects(o@, lv) && crate::geometry::ls_touches(o@, c),
        None => false,
    }
}

/// How many live slots meet the linestring and touch the coordinate `c`.
pub open spec fn touching_count(slots: Seq<Option<LineString>>, lv: Seq<Coord>, c: Coord) -> nat
    decreases slots.len(),
{
    if slots.len() == 0 {
        0
    } else {
        touching_count(slots.drop_last(), lv, c) + (if slot_touches(slots.last(), lv, c) {
            1nat
        } else {
            0nat
        })
    }
}

/// A positive touching count has a witness slot.
proof fn lemma_touch_witness(slots: Seq<Option<LineString>>, lv: Seq<Coord>, c: Coord)
    requires
        touching_count(slots, lv, c) > 0,
    ensures
        exists|j: int| 0 <= j < slots.len() && slot_touches(#[trigger] slots[j], lv, c),
    decreases slots.len(),
{
    if slot_touches(slots.last(), lv, c) {
        assert(slot_touches(slots[slots.len() - 1], lv, c));
    } else {
        lemma_touch_witness(slots.drop_last(), lv, c);
        let j = choose|j: int|
            0 <= j < slots.drop_last().len() && slot_touches(#[trigger] slots.drop_last()[j], lv, c);
        assert(slots[j] == slots.drop_last()[j]);
        assert(slot_touches(slots[j], lv, c));
    }
}

/// The endpoints of the two runs are pairwise distinct, so no join of the
/// two is possible.
pub open spec fn no_shared_endpoint(av: Seq<Coord>, bv: Seq<Coord>) -> bool {
    &&& av[0] != bv[0]
    &&& av[av.len() - 1] != bv[0]
    &&& av[av.len() - 1] != bv[bv.len() - 1]
    &&& av[0] != bv[bv.len() - 1]
}

/// No further join of the run `lv` with a member of the working set at a
/// uniquely-touched endpoint is possible: at an endpoint touched by exactly
/// one member, that member shares no endpoint with the run.
pub open spec fn no_unique_join(slots: Seq<Option<LineString>>, lv: Seq<Coord>) -> bool {
    forall|j: int, c: Coord|
        0 <= j < slots.len() && (c == lv[0] || c == lv[lv.len() - 1]) && touching_count(
            slots,
            lv,
            c,
        ) == 1 && #[trigger] slot_touches(slots[j], lv, c) ==> no_shared_endpoint(
            lv,
            (slots[j])->0@,
        )
}

/// The segment multiset of the slots at the given indices.
pub open spec fn removed_usegs(slots: Seq<Option<LineString>>, idxs: Seq<usize>) -> Multiset<
    Segment,
>
    decreases idxs.len(),
{
    if idxs.len() == 0 {
        Multiset::empty()
    } else {
        removed_usegs(slots, idxs.drop_last()).add(slot_usegs(slots[idxs.last() as int]))
    }
}

/// Merge the given linestring with the members of the working set that
/// uniquely touch one of its endpoints; returns the merged linestring (or
/// `None` when no endpoint is uniquely touched) and the slots consumed.
///
/// The merged linestring carries exactly the undirected segments of the
/// input linestring and of the consumed slots; when nothing was consumed, no
/// join at a uniquely-touched endpoint of the input is possible.
#[verifier::rlimit(100)]
#[verifier::spinoff_prover]
fn compute_linestring(slots: &Vec<Option<LineString>>, linestring: &LineString) -> (r: (
    Option<LineString>,
    Vec<usize>,
))
    requires
        slots_wf(slots@),
        linestring.wf(),
    ensures
        forall|m: int|
            0 <= m < r.1@.len() ==> (#[trigger] r.1@[m]) < slots@.len() && slots@[r.1@[m] as int]
                is Some,
        no_dups(r.1@),
        r.0 is Some ==> (r.0->0).wf() && usegs((r.0->0)@).to_multiset() == usegs(
            linestring@,
        ).to_multiset().add(removed_usegs(slots@, r.1@)),
        r.0 is None ==> r.1@.len() == 0 && touching_count(slots@, linestring@, linestring@[0])
            != 1 && touching_count(
            slots@,
            linestring@,
            linestring@[linestring@.len() - 1],
        ) != 1,
        touching_count(slots@, linestring@, linestring@[0]) != 1 && touching_count(
            slots@,
            linestring@,
            linestring@[linestring@.len() - 1],
        ) != 1 ==> r.0 is None && r.1@.len() == 0,
        forall|m: int|
            0 <= m < r.1@.len() ==> ((touching_count(slots@, linestring@, linestring@[0]) == 1
                && slot_touches(slots@[(#[trigger] r.1@[m]) as int], linestring@, linestring@[0]))
                || (touching_count(
                slots@,
                linestring@,
                linestring@[linestring@.len() - 1],
            ) == 1 && slot_touches(
                slots@[r.1@[m] as int],
                linestring@,
                linestring@[linestring@.len() - 1],
            ))),
        r.0 is Some && r.1@.len() == 0 ==> (r.0->0)@ == linestring@,
        r.1@.len() == 0 ==> no_unique_join(slots@, linestring@),
{
    let n: usize = slots.len();
    let first = linestring.first();
    let last = linestring.last();
    // The indices of the working set that meet the linestring.
    let mut cands: Vec<usize> = Vec::new();
    let mut t: usize = 0;
    while t < n
        invariant
            n == slots@.len(),
            slots_wf(slots@),
            linestring.wf(),
            0 <= t <= n,
            forall|q: int|
                0 <= q < cands@.len() ==> (#[trigger] cands@[q]) < t && slots@[cands@[q] as int]
                    is Some && ls_intersects(slots@[cands@[q] as int]->0@, linestring@),
            forall|q1: int, q2: int| 0 <= q1 < q2 < cands@.len() ==> cands@[q1] < cands@[q2],
            forall|t2: int|
                0 <= t2 < t && slots@[t2] is Some && ls_intersects(
                    (#[trigger] slots@[t2])->0@,
                    linestring@,
                ) ==> exists|q: int| 0 <= q < cands@.len() && cands@[q] == t2,
        decreases n - t,
    {
        match &slots[t] {
            Some(other) => {
                if linestrings_intersect(other, linestring) {
                    let ghost before = cands@;
                    cands.push(t);
                    proof {
                        assert(cands@[before.len() as int] == t as usize);
                        assert forall|t2: int|
                            0 <= t2 < t + 1 && slots@[t2] is Some && ls_intersects(
                                (#[trigger] slots@[t2])->0@,
                                linestring@,
                            ) implies exists|q: int|
                            0 <= q < cands@.len() && cands@[q] == t2 by {
                            if t2 == t {
                                assert(cands@[before.len() as int] == t2);
                            } else {
                                let q = choose|q: int|
                                    0 <= q < before.len() && before[q] == t2;
                                assert(cands@[q] == t2);
                            }
                        }
                    }
                }
            },
            None => {},
        }
        t = t + 1;
    }
    // Count the members touching each endpoint of the linestring.
    let mut start_count: usize = 0;
    let mut end_count: usize = 0;
    let mut t2: usize = 0;
    while t2 < n
        invariant
            n == slots@.len(),
            slots_wf(slots@),
            linestring.wf(),
            first == linestring@[0],
            last == linestring@[linestring@.len() - 1],
            0 <= t2 <= n,
            start_count == touching_count(slots@.take(t2 as int), linestring@, first),
            end_count == touching_count(slots@.take(t2 as int), linestring@, last),
            start_count <= t2,
            end_count <= t2,
        decreases n - t2,
    {
        proof {
            assert(slots@.take(t2 + 1).drop_last() =~= slots@.take(t2 as int));
            assert(slots@.take(t2 + 1).last() == slots@[t2 as int]);
        }
        match &slots[t2] {
            Some(other) => {
                if linestrings_intersect(other, linestring) {
                    if other.touches_coord(first) {
                        start_count = start_count + 1;
                    }
                    if other.touches_coord(last) {
                        end_count = end_count + 1;
                    }
                }
            },
            None => {},
        }
        t2 = t2 + 1;
    }
    proof {
        assert(slots@.take(n as int) =~= slots@);
    }
    // Merge with uniquely-touching candidates, in working-set order.
    let ghost lv = linestring@;
    let mut result: Option<LineString> = None;
    let mut to_remove: Vec<usize> = Vec::new();
    let mut m2: usize = 0;
    while m2 < cands.len()
        invariant
            n == slots@.len(),
            slots_wf(slots@),
            linestring.wf(),
            lv == linestring@,
            first == lv[0],
            last == lv[lv.len() - 1],
            start_count == touching_count(slots@, lv, first),
            end_count == touching_count(slots@, lv, last),
            forall|q: int|
                0 <= q < cands@.len() ==> (#[trigger] cands@[q]) < n && slots@[cands@[q] as int]
                    is Some && ls_intersects(slots@[cands@[q] as int]->0@, lv),
            forall|q1: int, q2: int| 0 <= q1 < q2 < cands@.len() ==> cands@[q1] < cands@[q2],
            forall|t3: int|
                0 <= t3 < n && slots@[t3] is Some && ls_intersects(
                    (#[trigger] slots@[t3])->0@,
                    lv,
                ) ==> exists|q: int| 0 <= q < cands@.len() && cands@[q] == t3,
            0 <= m2 <= cands@.len(),
            forall|q: int|
                0 <= q < to_remove@.len() ==> (#[trigger] to_remove@[q]) < n
                    && slots@[to_remove@[q] as int] is Some,
            forall|q1: int, q2: int|
                0 <= q1 < q2 < to_remove@.len() ==> to_remove@[q1] < to_remove@[q2],
            forall|q: int|
                0 <= q < to_remove@.len() ==> exists|mm: int|
                    0 <= mm < m2 && #[trigger] to_remove@[q] == cands@[mm],
            result is None ==> to_remove@.len() == 0,
            result is Some ==> (result->0).wf() && usegs((result->0)@).to_multiset() == usegs(
                lv,
            ).to_multiset().add(removed_usegs(slots@, to_remove@)),
            result is Some && to_remove@.len() == 0 ==> (result->0)@ == lv,
            start_count != 1 && end_count != 1 ==> result is None && to_remove@.len() == 0,
            forall|m3: int|
                0 <= m3 < to_remove@.len() ==> ((start_count == 1 && slot_touches(
                    slots@[(#[trigger] to_remove@[m3]) as int],
                    lv,
                    first,
                )) || (end_count == 1 && slot_touches(slots@[to_remove@[m3] as int], lv, last))),
            result is None ==> forall|mm: int|
                0 <= mm < m2 ==> !((start_count == 1 && crate::geometry::ls_touches(
                    (#[trigger] slots@[cands@[mm] as int])->0@,
                    first,
                )) || (end_count == 1 && crate::geometry::ls_touches(
                    slots@[cands@[mm] as int]->0@,
                    last,
                ))),
            to_remove@.len() == 0 ==> forall|mm: int|
                0 <= mm < m2 && ((start_count == 1 && crate::geometry::ls_touches(
                    (#[trigger] slots@[cands@[mm] as int])->0@,
                    first,
                )) || (end_count == 1 && crate::geometry::ls_touches(
                    slots@[cands@[mm] as int]->0@,
                    last,
                ))) ==> no_shared_endpoint(lv, slots@[cands@[mm] as int]->0@),
        decreases cands@.len() - m2,
    {
        let idx = cands[m2];
        let mut merged_here: bool = false;
        match &slots[idx] {
            Some(other) => {
                let touches_start = other.touches_coord(first);
                let touches_end = other.touches_coord(last);
                if (start_count == 1 && touches_start) || (end_count == 1 && touches_end) {
                    let ghost tr_before = to_remove@;
                    match &result {
                        None => {
                            match merge_two(linestring, other) {
                                Some(merged) => {
                                    result = Some(merged);
                                    to_remove.push(idx);
                                    merged_here = true;
                                },
                                None => {
                                    result = Some(linestring.clone());
                                },
                            }
                        },
                        Some(acc) => {
                            match merge_two(acc, other) {
                                Some(merged) => {
                                    result = Some(merged);
                                    to_remove.push(idx);
                                    merged_here = true;
                                },
                                None => {},
                            }
                        },
                    }
                    proof {
                        if merged_here {
                            assert(to_remove@ =~= tr_before.push(idx));
                            assert(to_remove@.drop_last() =~= tr_before);
                            assert(removed_usegs(slots@, to_remove@) == removed_usegs(
                                slots@,
                                tr_before,
                            ).add(slot_usegs(slots@[idx as int])));
                            let x = usegs(lv).to_multiset();
                            let y = removed_usegs(slots@, tr_before);
                            let z = usegs(other@).to_multiset();
                            assert(x.add(y).add(z) =~= x.add(y.add(z)));
                            assert forall|q: int|
                                0 <= q < to_remove@.len() implies exists|mm: int|
                                0 <= mm < m2 + 1 && #[trigger] to_remove@[q] == cands@[mm] by {
                                if q == to_remove@.len() - 1 {
                                    assert(to_remove@[q] == cands@[m2 as int]);
                                } else {
                                    assert(tr_before[q] == to_remove@[q]);
                                    let mm = choose|mm: int|
                                        0 <= mm < m2 && #[trigger] tr_before[q] == cands@[mm];
                                }
                            }
                            assert forall|q1: int, q2: int|
                                0 <= q1 < q2 < to_remove@.len() implies to_remove@[q1]
                                < to_remove@[q2] by {
                                if q2 == to_remove@.len() - 1 {
                                    let mm = choose|mm: int|
                                        0 <= mm < m2 && #[trigger] tr_before[q1] == cands@[mm];
                                    assert(cands@[mm] < cands@[m2 as int]);
                                } else {
                                    assert(tr_before[q1] == to_remove@[q1]);
                                    assert(tr_before[q2] == to_remove@[q2]);
                                }
                            }
                        }
                    }
                    // When the accumulator has closed into a ring, restart it
                    // at the endpoint of another linestring lying on the
                    // ring, so later passes can join there.
                    if merged_here {
                        let closed = match &result {
                            Some(acc) => acc.is_closed(),
                            None => false,
                        };
                        if closed {
                            let acc = match result {
                                Some(acc) => acc,
                                None => unreached(),
                            };
                            let at = rotation_target(slots, &acc, idx, true);
                            result = match at {
                                Some(at) => Some(rotate_start_point(&acc, at)),
                                None => Some(acc),
                            };
                        }
                    }
                }
            },
            None => {
                proof {
                    assert(false);
                }
            },
        }
        m2 = m2 + 1;
    }
    proof {
        if result is None {
            assert(touching_count(slots@, lv, first) != 1) by {
                if touching_count(slots@, lv, first) == 1 {
                    lemma_touch_witness(slots@, lv, first);
                    let j = choose|j: int|
                        0 <= j < slots@.len() && slot_touches(#[trigger] slots@[j], lv, first);
                    let q = choose|q: int| 0 <= q < cands@.len() && cands@[q] == j;
                    assert(crate::geometry::ls_touches(slots@[cands@[q] as int]->0@, first));
                }
            }
            assert(touching_count(slots@, lv, last) != 1) by {
                if touching_count(slots@, lv, last) == 1 {
                    lemma_touch_witness(slots@, lv, last);
                    let j = choose|j: int|
                        0 <= j < slots@.len() && slot_touches(#[trigger] slots@[j], lv, last);
                    let q = choose|q: int| 0 <= q < cands@.len() && cands@[q] == j;
                    assert(crate::geometry::ls_touches(slots@[cands@[q] as int]->0@, last));
                }
            }
        }
        if to_remove@.len() == 0 {
            assert forall|j: int, c: Coord|
                0 <= j < slots@.len() && (c == lv[0] || c == lv[lv.len() - 1]) && touching_count(
                    slots@,
                    lv,
                    c,
                ) == 1 && #[trigger] slot_touches(slots@[j], lv, c) implies no_shared_endpoint(
                lv,
                (slots@[j])->0@,
            ) by {
                let q = choose|q: int| 0 <= q < cands@.len() && cands@[q] == j;
                if result is None {
                    assert(!((start_count == 1 && crate::geometry::ls_touches(
                        slots@[cands@[q] as int]->0@,
                        first,
                    )) || (end_count == 1 && crate::geometry::ls_touches(
                        slots@[cands@[q] as int]->0@,
                        last,
                    ))));
                    assert(false);
                } else {
                    assert((start_count == 1 && crate::geometry::ls_touches(
                        slots@[cands@[q] as int]->0@,
                        first,
                    )) || (end_count == 1 && crate::geometry::ls_touches(
                        slots@[cands@[q] as int]->0@,
                        last,
                    )));
                }
            }
        }
    }
    (result, to_remove)
}

/// The endpoint of a slot that could later join the ring: the slot is live,
/// not skipped, does not merely run along the ring, and one of its endpoints
/// is a vertex of the ring.
pub open spec fn rotation_candidate(
    slots: Seq<Option<LineString>>,
    ringv: Seq<Coord>,
    skip_idx: usize,
    skip_used: bool,
    t: int,
    at: Coord,
) -> bool {
    &&& 0 <= t < slots.len()
    &&& !(skip_used && t == skip_idx)
    &&& slots[t] is Some
    &&& !ls_covers(ringv, (slots[t])->0@)
    &&& (slots[t]->0@[0] == at || slots[t]->0@[slots[t]->0@.len() - 1] == at)
    &&& exists|k: int| 0 <= k < ringv.len() && ringv[k] == at
}

/// Some slot offers the rotation target `at`.
pub open spec fn some_rotation_candidate(
    slots: Seq<Option<LineString>>,
    ringv: Seq<Coord>,
    skip_idx: usize,
    skip_used: bool,
    at: Coord,
) -> bool {
    exists|t: int| #[trigger] rotation_candidate(slots, ringv, skip_idx, skip_used, t, at)
}

/// The first endpoint of another working-set member that lies on a vertex of
/// the ring, skipping members that run along the ring and the member at
/// `skip_idx` when it was just consumed.
fn rotation_target(
    slots: &Vec<Option<LineString>>,
    ring: &LineString,
    skip_idx: usize,
    skip_used: bool,
) -> (r: Option<Coord>)
    requires
        slots_wf(slots@),
        ring.wf(),
        ls_closed(ring@),
    ensures
        r is Some ==> some_rotation_candidate(slots@, ring@, skip_idx, skip_used, r->0),
        r is None ==> forall|t: int, at: Coord|
            !(#[trigger] rotation_candidate(slots@, ring@, skip_idx, skip_used, t, at)),
{
    let n: usize = slots.len();
    let mut t: usize = 0;
    while t < n
        invariant
            n == slots@.len(),
            slots_wf(slots@),
            ring.wf(),
            ls_closed(ring@),
            0 <= t <= n,
            forall|t2: int, at: Coord|
                t2 < t ==> !(#[trigger] rotation_candidate(slots@, ring@, skip_idx, skip_used, t2, at)),
        decreases n - t,
    {
        if !(skip_used && t == skip_idx) {
            match &slots[t] {
                Some(w) => {
                    if !ls_covers_exec(ring, w) {
                        let wf2 = w.first();
                        let wl = w.last();
                        let nr: usize = ring.coords.len();
                        let mut k: usize = 0;
                        while k < nr
                            invariant
                                n == slots@.len(),
                                slots_wf(slots@),
                                ring.wf(),
                                0 <= t < n,
                                slots@[t as int] is Some,
                                w == slots@[t as int]->0,
                                !(skip_used && t == skip_idx),
                                !ls_covers(ring@, w@),
                                wf2 == w@[0],
                                wl == w@[w@.len() - 1],
                                nr == ring@.len(),
                                0 <= k <= nr,
                                forall|k2: int|
                                    0 <= k2 < k ==> #[trigger] ring@[k2] != wf2 && ring@[k2]
                                        != wl,
                            decreases nr - k,
                        {
                            if ring.coords[k] == wf2 {
                                proof {
                                    assert(rotation_candidate(
                                        slots@,
                                        ring@,
                                        skip_idx,
                                        skip_used,
                                        t as int,
                                        wf2,
                                    ));
                                    assert(some_rotation_candidate(
                                        slots@,
                                        ring@,
                                        skip_idx,
                                        skip_used,
                                        wf2,
                                    ));
                                }
                                return Some(wf2);
                            }
                            if ring.coords[k] == wl {
                                proof {
                                    assert(rotation_candidate(
                                        slots@,
                                        ring@,
                                        skip_idx,
                                        skip_used,
                                        t as int,
                                        wl,
                                    ));
                                    assert(some_rotation_candidate(
                                        slots@,
                                        ring@,
                                        skip_idx,
                                        skip_used,
                                        wl,
                                    ));
                                }
                                return Some(wl);
                            }
                            k = k + 1;
                        }
                        proof {
                            assert forall|at: Coord|
                                !rotation_candidate(
                                    slots@,
                                    ring@,
                                    skip_idx,
                                    skip_used,
                                    t as int,
                                    at,
                                ) by {
                                if rotation_candidate(
                                    slots@,
                                    ring@,
                                    skip_idx,
                                    skip_used,
                                    t as int,
                                    at,
                                ) {
                                    let k2 = choose|k2: int|
                                        0 <= k2 < ring@.len() && ring@[k2] == at;
                                }
                            }
                        }
                    } else {
                        proof {
                            assert(forall|at: Coord|
                                !rotation_candidate(
                                    slots@,
                                    ring@,
                                    skip_idx,
                                    skip_used,
                                    t as int,
                                    at,
                                ));
                        }
                    }
                },
                None => {},
            }
        }
        t = t + 1;
    }
    None
}

/// The slot views, in slot order, of two working sets agree: the same slots
/// are live and hold the same coordinate runs.
pub open spec fn slots_views_eq(a: Seq<Option<LineString>>, b: Seq<Option<LineString>>) -> bool {
    &&& a.len() == b.len()
    &&& forall|i: int|
        0 <= i < a.len() ==> (((#[trigger] a[i]) is Some <==> b[i] is Some) && (a[i] is Some
            ==> a[i]->0@ == b[i]->0@))
}

/// Updating one slot trades its contribution in the segment multiset.
proof fn lemma_slots_usegs_update(slots: Seq<Option<LineString>>, i: int, v: Option<LineString>)
    requires
        0 <= i < slots.len(),
    ensures
        slots_usegs(slots.update(i, v)).add(slot_usegs(slots[i])) == slots_usegs(slots).add(
            slot_usegs(v),
        ),
    decreases slots.len(),
{
    let updated = slots.update(i, v);
    if i == slots.len() - 1 {
        assert(updated.drop_last() =~= slots.drop_last());
        assert(updated.last() == v);
        assert(slots_usegs(updated).add(slot_usegs(slots[i])) =~= slots_usegs(slots).add(
            slot_usegs(v),
        ));
    } else {
        lemma_slots_usegs_update(slots.drop_last(), i, v);
        assert(updated.drop_last() =~= slots.drop_last().update(i, v));
        assert(updated.last() == slots.last());
        assert(slots.drop_last()[i] == slots[i]);
        assert(slots_usegs(updated) == slots_usegs(slots.drop_last().update(i, v)).add(
            slot_usegs(slots.last()),
        ));
        let u2 = slots_usegs(slots.drop_last().update(i, v));
        let sd = slots_usegs(slots.drop_last());
        assert forall|e: Segment|
            slots_usegs(updated).add(slot_usegs(slots[i])).count(e) == slots_usegs(slots).add(
                slot_usegs(v),
            ).count(e) by {
            assert(u2.add(slot_usegs(slots[i])).count(e) == sd.add(slot_usegs(v)).count(e));
            assert(u2.count(e) + slot_usegs(slots[i]).count(e) == sd.count(e) + slot_usegs(
                v,
            ).count(e));
            assert(slots_usegs(updated).count(e) == u2.count(e) + slot_usegs(
                slots.last(),
            ).count(e));
            assert(slots_usegs(slots).count(e) == sd.count(e) + slot_usegs(slots.last()).count(e));
        }
        assert(slots_usegs(updated).add(slot_usegs(slots[i])) =~= slots_usegs(slots).add(
            slot_usegs(v),
        ));
    }
}

/// Touching counts depend only on the slot views.
proof fn lemma_touching_count_views_eq(
    a: Seq<Option<LineString>>,
    b: Seq<Option<LineString>>,
    lv: Seq<Coord>,
    c: Coord,
)
    requires
        slots_views_eq(a, b),
    ensures
        touching_count(a, lv, c) == touching_count(b, lv, c),
    decreases a.len(),
{
    if a.len() > 0 {
        assert(slots_views_eq(a.drop_last(), b.drop_last())) by {
            assert(forall|i: int| 0 <= i < a.len() - 1 ==> a.drop_last()[i] == #[trigger] a[i]);
            assert(forall|i: int| 0 <= i < b.len() - 1 ==> b.drop_last()[i] == #[trigger] b[i]);
        }
        lemma_touching_count_views_eq(a.drop_last(), b.drop_last(), lv, c);
        assert(a[a.len() - 1] == a.last() && b[b.len() - 1] == b.last());
        assert(slot_touches(a.last(), lv, c) == slot_touches(b.last(), lv, c));
    }
}

/// The impossibility of a unique-endpoint join depends only on the slot
/// views.
proof fn lemma_no_unique_join_views_eq(
    a: Seq<Option<LineString>>,
    b: Seq<Option<LineString>>,
    lv: Seq<Coord>,
)
    requires
        slots_views_eq(a, b),
        no_unique_join(a, lv),
    ensures
        no_unique_join(b, lv),
{
    assert forall|j: int, c: Coord|
        0 <= j < b.len() && (c == lv[0] || c == lv[lv.len() - 1]) && touching_count(b, lv, c) == 1
            && #[trigger] slot_touches(b[j], lv, c) implies no_shared_endpoint(
        lv,
        (b[j])->0@,
    ) by {
        lemma_touching_count_views_eq(a, b, lv, c);
        assert(slot_touches(a[j], lv, c));
        assert(no_shared_endpoint(lv, (a[j])->0@));
        assert((a[j])->0@ == (b[j])->0@);
    }
}

/// No member of the working set has a uniquely-touched endpoint: no merge
/// can fire anywhere.
pub open spec fn slots_stable(slots: Seq<Option<LineString>>) -> bool {
    forall|i: int|
        0 <= i < slots.len() && (#[trigger] slots[i]) is Some ==> touching_count(
            slots.update(i, None),
            slots[i]->0@,
            slots[i]->0@[0],
        ) != 1 && touching_count(
            slots.update(i, None),
            slots[i]->0@,
            slots[i]->0@[slots[i]->0@.len() - 1],
        ) != 1
}

/// Stability depends only on the slot views.
proof fn lemma_slots_stable_views_eq(a: Seq<Option<LineString>>, b: Seq<Option<LineString>>)
    requires
        slots_views_eq(a, b),
        slots_stable(a),
    ensures
        slots_stable(b),
{
    assert forall|i: int|
        0 <= i < b.len() && (#[trigger] b[i]) is Some implies touching_count(
        b.update(i, None),
        b[i]->0@,
        b[i]->0@[0],
    ) != 1 && touching_count(
        b.update(i, None),
        b[i]->0@,
        b[i]->0@[b[i]->0@.len() - 1],
    ) != 1 by {
        assert(a[i] is Some && a[i]->0@ == b[i]->0@);
        assert(slots_views_eq(a.update(i, None), b.update(i, None))) by {
            assert(forall|x: int|
                0 <= x < a.len() && x != i ==> a.update(i, None)[x] == #[trigger] a[x]);
            assert(forall|x: int|
                0 <= x < b.len() && x != i ==> b.update(i, None)[x] == #[trigger] b[x]);
        }
        lemma_touching_count_views_eq(a.update(i, None), b.update(i, None), a[i]->0@, a[i]->0@[0]);
        lemma_touching_count_views_eq(
            a.update(i, None),
            b.update(i, None),
            a[i]->0@,
            a[i]->0@[a[i]->0@.len() - 1],
        );
    }
}

/// One merging pass over the working set, in slot order.
///
/// The pass preserves the multiset of undirected segments. When it leaves
/// the number of live slots unchanged it performed no merge, so it left
/// every slot's run unchanged, and no join of any member with the rest of
/// the set at a uniquely-touched endpoint is possible.
#[verifier::rlimit(100)]
#[verifier::spinoff_prover]
fn merge_pass(slots: &mut Vec<Option<LineString>>)
    requires
        slots_wf(old(slots)@),
    ensures
        slots_wf(final(slots)@),
        final(slots)@.len() == old(slots)@.len(),
        live_count(final(slots)@) <= live_count(old(slots)@),
        slots_usegs(final(slots)@) == slots_usegs(old(slots)@),
        live_count(final(slots)@) == live_count(old(slots)@) ==> slots_views_eq(
            final(slots)@,
            old(slots)@,
        ) && (forall|m: int|
            0 <= m < old(slots)@.len() && old(slots)@[m] is Some ==> no_unique_join(
                old(slots)@.update(m, None),
                (#[trigger] old(slots)@[m])->0@,
            )),
        slots_stable(old(slots)@) ==> slots_views_eq(final(slots)@, old(slots)@) && live_count(
            final(slots)@,
        ) == live_count(old(slots)@),
{
    let n: usize = slots.len();
    let mut i: usize = 0;
    while i < n
        invariant
            n == slots@.len(),
            slots@.len() == old(slots)@.len(),
            slots_wf(slots@),
            0 <= i <= n,
            live_count(slots@) <= live_count(old(slots)@),
            slots_usegs(slots@) == slots_usegs(old(slots)@),
            live_count(slots@) == live_count(old(slots)@) ==> slots_views_eq(
                slots@,
                old(slots)@,
            ) && (forall|m: int|
                0 <= m < i && old(slots)@[m] is Some ==> no_unique_join(
                    old(slots)@.update(m, None),
                    (#[trigger] old(slots)@[m])->0@,
                )),
            slots_stable(old(slots)@) ==> slots_views_eq(slots@, old(slots)@) && live_count(slots@)
                == live_count(old(slots)@),
        decreases n - i,
    {
        let current: Option<LineString> = match &slots[i] {
            Some(ls) => Some(ls.clone()),
            None => None,
        };
        match current {
            Some(current) => {
                let ghost s0 = slots@;
                let ghost cv = s0[i as int]->0@;
                proof {
                    assert(current@ == cv);
                }
                slots.set(i, None);
                let ghost s1 = slots@;
                proof {
                    lemma_live_count_update(s0, i as int, None);
                    lemma_slots_usegs_update(s0, i as int, None);
                    assert(slots_usegs(s1).add(slot_usegs(s0[i as int])) == slots_usegs(s0).add(
                        slot_usegs(None),
                    ));
                    assert(slots_usegs(s0).add(slot_usegs(None)) =~= slots_usegs(s0));
                    assert(slot_usegs(s0[i as int]) == usegs(cv).to_multiset());
                }
                let (computed, removed) = compute_linestring(slots, &current);
                proof {
                    if slots_stable(old(slots)@) {
                        assert(slots_views_eq(s0, old(slots)@));
                        assert(old(slots)@[i as int] is Some);
                        let olv = old(slots)@[i as int]->0@;
                        assert(cv == olv);
                        assert(slots_views_eq(old(slots)@.update(i as int, None), s1)) by {
                            assert(forall|x: int|
                                0 <= x < n && x != i ==> s1[x] == #[trigger] s0[x]);
                            assert(forall|x: int|
                                0 <= x < n && x != i ==> old(slots)@.update(i as int, None)[x]
                                    == #[trigger] old(slots)@[x]);
                        }
                        lemma_touching_count_views_eq(
                            old(slots)@.update(i as int, None),
                            s1,
                            olv,
                            olv[0],
                        );
                        lemma_touching_count_views_eq(
                            old(slots)@.update(i as int, None),
                            s1,
                            olv,
                            olv[olv.len() - 1],
                        );
                        assert(touching_count(s1, cv, cv[0]) != 1);
                        assert(touching_count(s1, cv, cv[cv.len() - 1]) != 1);
                        assert(computed is None && removed@.len() == 0);
                    }
                }
                match computed {
                    Some(merged) => {
                        proof {
                            assert(!slots_stable(old(slots)@));
                        }
                        slots.set(i, Some(merged));
                        let ghost s2 = slots@;
                        proof {
                            lemma_live_count_update(s1, i as int, Some(merged));
                            lemma_slots_usegs_update(s1, i as int, Some(merged));
                            assert(slots_usegs(s2).add(slot_usegs(s1[i as int])) == slots_usegs(
                                s1,
                            ).add(slot_usegs(Some(merged))));
                            assert(slots_usegs(s2).add(slot_usegs(s1[i as int])) =~= slots_usegs(
                                s2,
                            ));
                            assert(live_count(s2) == live_count(s0));
                        }
                        let nr: usize = removed.len();
                        let mut q: usize = 0;
                        proof {
                            assert(s1[i as int] is None);
                            assert forall|x: int|
                                0 <= x < removed@.len() implies slots@[removed@[x] as int]
                                == s1[removed@[x] as int] by {
                                assert(s1[removed@[x] as int] is Some);
                            }
                            assert(removed@.take(0).len() == 0);
                            assert(slots_usegs(s2).add(
                                removed_usegs(s1, removed@.take(0)),
                            ) =~= slots_usegs(s2));
                        }
                        while q < nr
                            invariant
                                n == slots@.len(),
                                slots@.len() == old(slots)@.len(),
                                slots_wf(slots@),
                                0 <= i < n,
                                nr == removed@.len(),
                                forall|x: int|
                                    0 <= x < removed@.len() ==> (#[trigger] removed@[x]) < n
                                        && s1[removed@[x] as int] is Some,
                                no_dups(removed@),
                                0 <= q <= nr,
                                q == 0 ==> slots@ == s2,
                                forall|x: int|
                                    q <= x < removed@.len() ==> slots@[removed@[x] as int]
                                        == s1[removed@[x] as int],
                                slots_usegs(slots@).add(removed_usegs(s1, removed@.take(q as int)))
                                    == slots_usegs(s2),
                                live_count(slots@) + q == live_count(s2),
                                slots_usegs(s2) == slots_usegs(s1).add(
                                    usegs(cv).to_multiset().add(removed_usegs(s1, removed@)),
                                ),
                            decreases nr - q,
                        {
                            let ghost before_rm = slots@;
                            let idx = removed[q];
                            proof {
                                assert(before_rm[idx as int] == s1[idx as int]);
                                assert(before_rm[idx as int] is Some);
                            }
                            slots.set(idx, None);
                            proof {
                                lemma_live_count_update(before_rm, idx as int, None);
                                lemma_slots_usegs_update(before_rm, idx as int, None);
                                assert(slots_usegs(slots@).add(slot_usegs(before_rm[idx as int]))
                                    == slots_usegs(before_rm).add(slot_usegs(None)));
                                assert(slots_usegs(before_rm).add(slot_usegs(None)) =~= slots_usegs(
                                    before_rm,
                                ));
                                assert(removed@.take(q + 1).drop_last() =~= removed@.take(q as int));
                                assert(removed@.take(q + 1).last() == removed@[q as int]);
                                assert(removed_usegs(s1, removed@.take(q + 1)) == removed_usegs(
                                    s1,
                                    removed@.take(q as int),
                                ).add(slot_usegs(s1[idx as int])));
                                assert(slots_usegs(slots@).add(removed_usegs(s1, removed@.take(q + 1)))
                                    =~= slots_usegs(slots@).add(slot_usegs(s1[idx as int])).add(
                                    removed_usegs(s1, removed@.take(q as int)),
                                ));
                                assert(slots_usegs(slots@).add(slot_usegs(s1[idx as int])).add(
                                    removed_usegs(s1, removed@.take(q as int)),
                                ) =~= slots_usegs(before_rm).add(
                                    removed_usegs(s1, removed@.take(q as int)),
                                ));
                                assert forall|x: int|
                                    q + 1 <= x < removed@.len() implies slots@[removed@[x] as int]
                                    == s1[removed@[x] as int] by {
                                    assert(removed@[x] != removed@[q as int]);
                                }
                            }
                            q = q + 1;
                        }
                        proof {
                            assert(removed@.take(nr as int) =~= removed@);
                            let r_ms = removed_usegs(s1, removed@);
                            let x = slots_usegs(slots@);
                            let y = slots_usegs(s1).add(usegs(cv).to_multiset());
                            assert(y.add(r_ms) =~= slots_usegs(s1).add(
                                usegs(cv).to_multiset().add(r_ms),
                            ));
                            assert(x.add(r_ms) == y.add(r_ms));
                            lemma_multiset_cancel(x, y, r_ms);
                            assert(slots_usegs(s1).add(usegs(cv).to_multiset()) == slots_usegs(s0));
                            assert(live_count(slots@) + nr == live_count(s0));
                            if nr == 0 {
                                assert(slots@ == s2);
                                assert(merged@ == cv);
                                assert(slots_views_eq(slots@, s0)) by {
                                    assert(forall|m: int|
                                        0 <= m < n && m != i ==> s2[m] == #[trigger] s0[m]);
                                }
                                if live_count(slots@) == live_count(old(slots)@) {
                                    assert(slots_views_eq(slots@, old(slots)@)) by {
                                        assert(live_count(s0) == live_count(old(slots)@));
                                    }
                                    assert(no_unique_join(s1, cv));
                                    assert(slots_views_eq(s1, old(slots)@.update(i as int, None)))
                                        by {
                                        assert(slots_views_eq(s0, old(slots)@));
                                        assert(forall|m: int|
                                            0 <= m < n && m != i ==> s1[m] == #[trigger] s0[m]);
                                        assert(forall|m: int|
                                            0 <= m < n && m != i ==> old(slots)@.update(
                                                i as int,
                                                None,
                                            )[m] == #[trigger] old(slots)@[m]);
                                    }
                                    lemma_no_unique_join_views_eq(
                                        s1,
                                        old(slots)@.update(i as int, None),
                                        cv,
                                    );
                                    assert(cv == old(slots)@[i as int]->0@);
                                }
                            } else {
                                assert(live_count(slots@) < live_count(s0));
                            }
                        }
                    },
                    None => {
                        slots.set(i, Some(current));
                        proof {
                            lemma_live_count_update(s1, i as int, Some(current));
                            lemma_slots_usegs_update(s1, i as int, Some(current));
                            assert(slots_usegs(slots@).add(slot_usegs(s1[i as int]))
                                == slots_usegs(s1).add(slot_usegs(Some(current))));
                            assert(slots_usegs(slots@).add(slot_usegs(s1[i as int])) =~= slots_usegs(
                                slots@,
                            ));
                            assert(slot_usegs(Some(current)) == usegs(cv).to_multiset());
                            assert(slots_usegs(slots@) == slots_usegs(s0));
                            assert(live_count(slots@) == live_count(s0));
                            assert(slots_views_eq(slots@, s0)) by {
                                assert(forall|m: int|
                                    0 <= m < n && m != i ==> slots@[m] == #[trigger] s0[m]);
                            }
                            if live_count(slots@) == live_count(old(slots)@) {
                                assert(slots_views_eq(slots@, old(slots)@));
                                assert(no_unique_join(s1, cv));
                                assert(slots_views_eq(s1, old(slots)@.update(i as int, None))) by {
                                    assert(slots_views_eq(s0, old(slots)@));
                                    assert(forall|m: int|
                                        0 <= m < n && m != i ==> s1[m] == #[trigger] s0[m]);
                                    assert(forall|m: int|
                                        0 <= m < n && m != i ==> old(slots)@.update(
                                            i as int,
                                            None,
                                        )[m] == #[trigger] old(slots)@[m]);
                                }
                                lemma_no_unique_join_views_eq(
                                    s1,
                                    old(slots)@.update(i as int, None),
                                    cv,
                                );
                                assert(cv == old(slots)@[i as int]->0@);
                            }
                            if slots_stable(old(slots)@) {
                                assert(slots_views_eq(slots@, old(slots)@)) by {
                                    assert(slots_views_eq(s0, old(slots)@));
                                    assert(slots_views_eq(slots@, s0));
                                }
                            }
                        }
                    },
                }
            },
            None => {},
        }
        i = i + 1;
    }
}

/// The views of the live slots, in slot order.
pub open spec fn live_views(slots: Seq<Option<LineString>>) -> Seq<Seq<Coord>>
    decreases slots.len(),
{
    if slots.len() == 0 {
        Seq::empty()
    } else {
        live_views(slots.drop_last()) + (match slots.last() {
            Some(l) => seq![l@],
            None => Seq::empty(),
        })
    }
}

/// Every linestring of the list as a live slot, in order.
pub open spec fn all_slots(lss: Seq<LineString>) -> Seq<Option<LineString>> {
    Seq::new(lss.len(), |i: int| Some(lss[i]))
}

/// No member of the list has an endpoint touched by exactly one other
/// member: the merge has nothing to do.
pub open spec fn lss_stable(lss: Seq<LineString>) -> bool {
    slots_stable(all_slots(lss))
}

/// The live views of an all-live working set are the member views.
proof fn lemma_live_views_all_some(lss: Seq<LineString>)
    ensures
        live_views(all_slots(lss)) == crate::geometry::ls_views(lss),
    decreases lss.len(),
{
    if lss.len() == 0 {
        assert(live_views(all_slots(lss)) =~= crate::geometry::ls_views(lss));
    } else {
        lemma_live_views_all_some(lss.drop_last());
        assert(all_slots(lss).drop_last() =~= all_slots(lss.drop_last()));
        assert(all_slots(lss).last() == Some(lss.last()));
        assert(live_views(all_slots(lss)) =~= crate::geometry::ls_views(lss));
    }
}

/// Live views depend only on the slot views.
proof fn lemma_live_views_views_eq(a: Seq<Option<LineString>>, b: Seq<Option<LineString>>)
    requires
        slots_views_eq(a, b),
    ensures
        live_views(a) == live_views(b),
    decreases a.len(),
{
    if a.len() > 0 {
        assert(slots_views_eq(a.drop_last(), b.drop_last())) by {
            assert(forall|i: int| 0 <= i < a.len() - 1 ==> a.drop_last()[i] == #[trigger] a[i]);
            assert(forall|i: int| 0 <= i < b.len() - 1 ==> b.drop_last()[i] == #[trigger] b[i]);
        }
        lemma_live_views_views_eq(a.drop_last(), b.drop_last());
        assert(a[a.len() - 1] == a.last() && b[b.len() - 1] == b.last());
        assert(live_views(a) =~= live_views(b));
    }
}

/// Merge linestrings that touch another linestring at a uniquely-shared
/// endpoint, repeating passes until the number of live linestrings is
/// stable.
///
/// Every returned linestring is well-formed and there are no more of them
/// than came in; the multiset of undirected constituent segments is exactly
/// that of the input; and the result is the live content, in order, of a
/// working set in which no member can be joined to another at a
/// uniquely-touched endpoint.
#[verifier::rlimit(100)]
#[verifier::spinoff_prover]
pub fn merge_linestrings(lines: Vec<LineString>) -> (r: Vec<LineString>)
    requires
        forall|i: int| 0 <= i < lines@.len() ==> (#[trigger] lines@[i]).wf(),
    ensures
        forall|i: int| 0 <= i < r@.len() ==> (#[trigger] r@[i]).wf(),
        r@.len() <= lines@.len(),
        lss_usegs(r@) == lss_usegs(lines@),
        lss_stable(lines@) ==> crate::geometry::ls_views(r@) == crate::geometry::ls_views(lines@),
        exists|s: Seq<Option<LineString>>|
            {
                &&& live_views(s) == crate::geometry::ls_views(r@)
                &&& forall|i: int|
                    0 <= i < s.len() && s[i] is Some ==> no_unique_join(
                        s.update(i, None),
                        (#[trigger] s[i])->0@,
                    )
            },
{
    let n: usize = lines.len();
    let mut slots: Vec<Option<LineString>> = Vec::new();
    let mut i: usize = 0;
    while i < n
        invariant
            n == lines@.len(),
            forall|m: int| 0 <= m < lines@.len() ==> (#[trigger] lines@[m]).wf(),
            0 <= i <= n,
            slots@.len() == i,
            slots_wf(slots@),
            live_count(slots@) <= i,
            slots_usegs(slots@) == lss_usegs(lines@.take(i as int)),
            slots_views_eq(slots@, all_slots(lines@).take(i as int)),
        decreases n - i,
    {
        let ghost before = slots@;
        slots.push(Some(lines[i].clone()));
        proof {
            assert(slots@.drop_last() =~= before);
            assert(live_count(slots@) == live_count(before) + 1);
            assert(lines@.take(i + 1).drop_last() =~= lines@.take(i as int));
            assert(lines@.take(i + 1).last() == lines@[i as int]);
            assert(slot_usegs(slots@.last()) == usegs(lines@[i as int]@).to_multiset());
            assert(slots_views_eq(slots@, all_slots(lines@).take(i + 1))) by {
                assert(forall|x: int| 0 <= x < i ==> slots@[x] == #[trigger] before[x]);
                assert(forall|x: int|
                    0 <= x < i + 1 ==> all_slots(lines@).take(i + 1)[x] == #[trigger] all_slots(
                        lines@,
                    )[x]);
                assert(forall|x: int|
                    0 <= x < i ==> all_slots(lines@).take(i as int)[x] == #[trigger] all_slots(
                        lines@,
                    )[x]);
            }
        }
        i = i + 1;
    }
    proof {
        assert(lines@.take(n as int) =~= lines@);
        assert(all_slots(lines@).take(n as int) =~= all_slots(lines@));
    }
    let mut prev: usize = usize::MAX;
    proof {
        lemma_live_count_bound(slots@);
    }
    loop
        invariant_except_break
            slots@.len() == n,
            slots_wf(slots@),
            live_count(slots@) <= prev,
            slots_usegs(slots@) == lss_usegs(lines@),
            lss_stable(lines@) ==> slots_views_eq(slots@, all_slots(lines@)),
        ensures
            slots_wf(slots@),
            live_count(slots@) <= slots@.len(),
            slots@.len() == n,
            slots_usegs(slots@) == lss_usegs(lines@),
            forall|m: int|
                0 <= m < slots@.len() && slots@[m] is Some ==> no_unique_join(
                    slots@.update(m, None),
                    (#[trigger] slots@[m])->0@,
                ),
            lss_stable(lines@) ==> slots_views_eq(slots@, all_slots(lines@)),
        decreases prev,
    {
        let ghost entry = slots@;
        proof {
            if lss_stable(lines@) {
                assert(slots_views_eq(all_slots(lines@), entry)) by {
                    assert(slots_views_eq(entry, all_slots(lines@)));
                }
                lemma_slots_stable_views_eq(all_slots(lines@), entry);
            }
        }
        merge_pass(&mut slots);
        proof {
            if lss_stable(lines@) {
                assert(slots_views_eq(slots@, entry));
                assert(slots_views_eq(slots@, all_slots(lines@)));
            }
        }
        let count = live_count_exec(&slots);
        proof {
            lemma_live_count_bound(slots@);
        }
        if count == prev {
            proof {
                assert(live_count(slots@) == live_count(entry));
                assert(slots_views_eq(slots@, entry));
                assert forall|m: int|
                    0 <= m < slots@.len() && slots@[m] is Some implies no_unique_join(
                    slots@.update(m, None),
                    (#[trigger] slots@[m])->0@,
                ) by {
                    assert(entry[m] is Some);
                    assert(no_unique_join(entry.update(m, None), entry[m]->0@));
                    assert(slots_views_eq(entry.update(m, None), slots@.update(m, None))) by {
                        assert(forall|x: int|
                            0 <= x < n && x != m ==> entry.update(m, None)[x] == #[trigger] entry[x]);
                        assert(forall|x: int|
                            0 <= x < n && x != m ==> slots@.update(m, None)[x]
                                == #[trigger] slots@[x]);
                    }
                    lemma_no_unique_join_views_eq(
                        entry.update(m, None),
                        slots@.update(m, None),
                        entry[m]->0@,
                    );
                    assert(entry[m]->0@ == slots@[m]->0@);
                }
            }
            break ;
        }
        prev = count;
    }
    // Gather the live slots.
    let mut out: Vec<LineString> = Vec::new();
    let mut k: usize = 0;
    while k < slots.len()
        invariant
            slots_wf(slots@),
            0 <= k <= slots@.len(),
            forall|m: int| 0 <= m < out@.len() ==> (#[trigger] out@[m]).wf(),
            out@.len() <= live_count(slots@.take(k as int)),
            lss_usegs(out@) == slots_usegs(slots@.take(k as int)),
            crate::geometry::ls_views(out@) == live_views(slots@.take(k as int)),
        decreases slots@.len() - k,
    {
        proof {
            assert(slots@.take(k + 1).drop_last() =~= slots@.take(k as int));
            assert(slots@.take(k + 1).last() == slots@[k as int]);
        }
        let ghost out_before = out;
        match &slots[k] {
            Some(ls) => {
                out.push(ls.clone());
                proof {
                    assert(out@.drop_last() =~= out_before@);
                    assert(lss_usegs(out@) == lss_usegs(out_before@).add(
                        usegs(out@.last()@).to_multiset(),
                    ));
                    assert(usegs(out@.last()@).to_multiset() == slot_usegs(slots@[k as int]));
                    assert(crate::geometry::ls_views(out@) =~= live_views(slots@.take(k + 1))) by {
                        assert(crate::geometry::ls_views(out@).len() == out@.len());
                        assert(crate::geometry::ls_views(out_before@).len() == out_before@.len());
                        assert(forall|x: int|
                            0 <= x < out@.len() ==> #[trigger] crate::geometry::ls_views(out@)[x]
                                == out@[x]@);
                        assert(forall|x: int|
                            0 <= x < out_before@.len() ==> #[trigger] crate::geometry::ls_views(
                                out_before@,
                            )[x] == out_before@[x]@);
                        assert(forall|x: int|
                            0 <= x < out_before@.len() ==> out@[x] == #[trigger] out_before@[x]);
                    }
                }
            },
            None => {
                proof {
                    assert(lss_usegs(out@) == slots_usegs(slots@.take(k + 1)));
                    assert(crate::geometry::ls_views(out@) =~= live_views(slots@.take(k + 1)));
                }
            },
        }
        k = k + 1;
    }
    proof {
        assert(slots@.take(slots@.len() as int) =~= slots@);
        lemma_live_count_bound(slots@);
        let ghost witness = slots@;
        assert(live_views(witness) == crate::geometry::ls_views(out@));
        if lss_stable(lines@) {
            lemma_live_views_views_eq(slots@, all_slots(lines@));
            lemma_live_views_all_some(lines@);
        }
    }
    out
}

/// The live count never exceeds the slot count.
proof fn lemma_live_count_bound(slots: Seq<Option<LineString>>)
    ensures
        live_count(slots) <= slots.len(),
    decreases slots.len(),
{
    if slots.len() > 0 {
        lemma_live_count_bound(slots.drop_last());
    }
}

} // verus!

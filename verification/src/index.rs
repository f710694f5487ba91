//! A bulk-loaded spatial index over axis-aligned envelopes.
//!
//! The index answers, with exact contracts, which of its items' envelopes
//! intersect a query envelope, and which cross pairs of two indexes have
//! intersecting envelopes. Rules use it to prune pair enumeration; pruning
//! is sound because geometric containment implies envelope intersection.

use vstd::prelude::*;

use crate::coord::{in_box, Coord, Segment};
use crate::sweep::no_dups;

verus! {

/// An axis-aligned bounding rectangle.
#[derive(Clone, Copy, Debug, PartialEq, Eq, Structural)]
pub struct Envelope {
    pub min_x: i64,
    pub min_y: i64,
    pub max_x: i64,
    pub max_y: i64,
}

impl Envelope {
    pub open spec fn wf(self) -> bool {
        self.min_x <= self.max_x && self.min_y <= self.max_y
    }
}

/// Two envelopes share at least one point.
pub open spec fn envs_intersect(a: Envelope, b: Envelope) -> bool {
    a.min_x <= b.max_x && b.min_x <= a.max_x && a.min_y <= b.max_y && b.min_y <= a.max_y
}

/// The envelope contains the coordinate.
pub open spec fn env_contains_coord(e: Envelope, c: Coord) -> bool {
    e.min_x <= c.x <= e.max_x && e.min_y <= c.y <= e.max_y
}

/// The bounding envelope of a segment.
pub open spec fn seg_env(s: Segment) -> Envelope {
    Envelope {
        min_x: if s.a.x <= s.b.x {
            s.a.x
        } else {
            s.b.x
        },
        min_y: if s.a.y <= s.b.y {
            s.a.y
        } else {
            s.b.y
        },
        max_x: if s.a.x <= s.b.x {
            s.b.x
        } else {
            s.a.x
        },
        max_y: if s.a.y <= s.b.y {
            s.b.y
        } else {
            s.a.y
        },
    }
}

/// Compute the bounding envelope of a segment.
pub fn segment_envelope(s: &Segment) -> (e: Envelope)
    ensures
        e == seg_env(*s),
        e.wf(),
{
    Envelope {
        min_x: if s.a.x <= s.b.x {
            s.a.x
        } else {
            s.b.x
        },
        min_y: if s.a.y <= s.b.y {
            s.a.y
        } else {
            s.b.y
        },
        max_x: if s.a.x <= s.b.x {
            s.b.x
        } else {
            s.a.x
        },
        max_y: if s.a.y <= s.b.y {
            s.b.y
        } else {
            s.a.y
        },
    }
}

/// A point of a segment lies within the segment's envelope.
pub proof fn lemma_on_segment_in_env(s: Segment, p: Coord)
    requires
        s.spec_contains_coord(p),
    ensures
        env_contains_coord(seg_env(s), p),
{
    assert(in_box(s.a, s.b, p));
}

/// A segment contained in another has an intersecting envelope: pruning
/// candidate pairs by envelope loses no containment.
pub proof fn lemma_containment_implies_env(s: Segment, t: Segment)
    requires
        s.spec_contains_segment(t),
    ensures
        envs_intersect(seg_env(s), seg_env(t)),
{
    lemma_on_segment_in_env(s, t.a);
}

/// Whether two envelopes intersect, at run time.
pub fn envelopes_intersect(a: &Envelope, b: &Envelope) -> (r: bool)
    ensures
        r == envs_intersect(*a, *b),
{
    a.min_x <= b.max_x && b.min_x <= a.max_x && a.min_y <= b.max_y && b.min_y <= a.max_y
}

/// A bulk-loaded index: the envelope of item `i` sits at position `i`.
pub struct SpatialIndex {
    pub envelopes: Vec<Envelope>,
}

impl SpatialIndex {
    /// Bulk-load an index from the items' envelopes.
    pub fn build(envelopes: Vec<Envelope>) -> (r: SpatialIndex)
        ensures
            r.envelopes == envelopes,
    {
        SpatialIndex { envelopes }
    }

    /// The indices of all items whose envelope intersects the query
    /// envelope, in index order.
    pub fn envelope_query(&self, env: &Envelope) -> (r: Vec<usize>)
        ensures
            forall|q: int|
                0 <= q < r@.len() ==> (#[trigger] r@[q]) < self.envelopes@.len(),
            forall|idx: usize| #[trigger]
                r@.contains(idx) <==> (idx < self.envelopes@.len() && envs_intersect(
                    self.envelopes@[idx as int],
                    *env,
                )),
            no_dups(r@),
            forall|q1: int, q2: int| 0 <= q1 < q2 < r@.len() ==> r@[q1] < r@[q2],
    {
        let mut r: Vec<usize> = Vec::new();
        let n: usize = self.envelopes.len();
        let mut i: usize = 0;
        while i < n
            invariant
                n == self.envelopes@.len(),
                0 <= i <= n,
                forall|q: int| 0 <= q < r@.len() ==> (#[trigger] r@[q]) < i,
                forall|q1: int, q2: int| 0 <= q1 < q2 < r@.len() ==> r@[q1] < r@[q2],
                forall|idx: usize| #[trigger]
                    r@.contains(idx) <==> (idx < i && envs_intersect(
                        self.envelopes@[idx as int],
                        *env,
                    )),
            decreases n - i,
        {
            let ghost before = r@;
            if envelopes_intersect(&self.envelopes[i], env) {
                r.push(i);
                proof {
                    assert(r@[before.len() as int] == i as usize);
                    assert forall|idx: usize| #[trigger]
                        r@.contains(idx) <==> (idx < i + 1 && envs_intersect(
                            self.envelopes@[idx as int],
                            *env,
                        )) by {
                        if r@.contains(idx) {
                            let q = choose|q: int| 0 <= q < r@.len() && r@[q] == idx;
                            if q < before.len() {
                                assert(before[q] == idx);
                                assert(before.contains(idx));
                            }
                        }
                        if idx < i + 1 && envs_intersect(self.envelopes@[idx as int], *env) {
                            if idx < i {
                                assert(before.contains(idx));
                                let q = choose|q: int|
                                    0 <= q < before.len() && before[q] == idx;
                                assert(r@[q] == idx);
                            } else {
                                assert(r@[before.len() as int] == idx);
                            }
                        }
                    }
                }
            } else {
                proof {
                    assert forall|idx: usize| #[trigger]
                        r@.contains(idx) <==> (idx < i + 1 && envs_intersect(
                            self.envelopes@[idx as int],
                            *env,
                        )) by {
                        if idx == i as usize {
                            if r@.contains(idx) {
                                let q = choose|q: int| 0 <= q < r@.len() && r@[q] == idx;
                            }
                        }
                    }
                }
            }
            i = i + 1;
        }
        proof {
            assert forall|q1: int, q2: int|
                0 <= q1 < q2 < r@.len() implies r@[q1] != r@[q2] by {}
        }
        r
    }

    /// The cross pairs of the two indexes whose envelopes intersect.
    pub fn candidate_pairs(&self, other: &SpatialIndex) -> (r: Vec<(usize, usize)>)
        ensures
            forall|i: usize, j: usize| #[trigger]
                r@.contains((i, j)) <==> (i < self.envelopes@.len() && j < other.envelopes@.len()
                    && envs_intersect(self.envelopes@[i as int], other.envelopes@[j as int])),
    {
        let mut r: Vec<(usize, usize)> = Vec::new();
        let n: usize = self.envelopes.len();
        let m: usize = other.envelopes.len();
        let mut i: usize = 0;
        while i < n
            invariant
                n == self.envelopes@.len(),
                m == other.envelopes@.len(),
                0 <= i <= n,
                forall|i2: usize, j2: usize| #[trigger]
                    r@.contains((i2, j2)) <==> (i2 < i && j2 < m && envs_intersect(
                        self.envelopes@[i2 as int],
                        other.envelopes@[j2 as int],
                    )),
            decreases n - i,
        {
            let mut j: usize = 0;
            while j < m
                invariant
                    n == self.envelopes@.len(),
                    m == other.envelopes@.len(),
                    0 <= i < n,
                    0 <= j <= m,
                    forall|i2: usize, j2: usize| #[trigger]
                        r@.contains((i2, j2)) <==> ((i2 < i && j2 < m && envs_intersect(
                            self.envelopes@[i2 as int],
                            other.envelopes@[j2 as int],
                        )) || (i2 == i && j2 < j && envs_intersect(
                            self.envelopes@[i2 as int],
                            other.envelopes@[j2 as int],
                        ))),
                decreases m - j,
            {
                let ghost before = r@;
                if envelopes_intersect(&self.envelopes[i], &other.envelopes[j]) {
                    r.push((i, j));
                    proof {
                        assert(r@[before.len() as int] == (i as usize, j as usize));
                        assert forall|i2: usize, j2: usize| #[trigger]
                            r@.contains((i2, j2)) <==> ((i2 < i && j2 < m && envs_intersect(
                                self.envelopes@[i2 as int],
                                other.envelopes@[j2 as int],
                            )) || (i2 == i && j2 < j + 1 && envs_intersect(
                                self.envelopes@[i2 as int],
                                other.envelopes@[j2 as int],
                            ))) by {
                            if r@.contains((i2, j2)) {
                                let q = choose|q: int| 0 <= q < r@.len() && r@[q] == (i2, j2);
                                if q < before.len() {
                                    assert(before[q] == (i2, j2));
                                    assert(before.contains((i2, j2)));
                                }
                            } else {
                                if (i2 < i && j2 < m) || (i2 == i && j2 < j) {
                                    if envs_intersect(
                                        self.envelopes@[i2 as int],
                                        other.envelopes@[j2 as int],
                                    ) {
                                        assert(before.contains((i2, j2)));
                                        let q = choose|q: int|
                                            0 <= q < before.len() && before[q] == (i2, j2);
                                        assert(r@[q] == (i2, j2));
                                    }
                                }
                            }
                        }
                    }
                } else {
                    proof {
                        assert forall|i2: usize, j2: usize| #[trigger]
                            r@.contains((i2, j2)) <==> ((i2 < i && j2 < m && envs_intersect(
                                self.envelopes@[i2 as int],
                                other.envelopes@[j2 as int],
                            )) || (i2 == i && j2 < j + 1 && envs_intersect(
                                self.envelopes@[i2 as int],
                                other.envelopes@[j2 as int],
                            ))) by {}
                    }
                }
                j = j + 1;
            }
            proof {
                assert forall|i2: usize, j2: usize| #[trigger]
                    r@.contains((i2, j2)) <==> (i2 < i + 1 && j2 < m && envs_intersect(
                        self.envelopes@[i2 as int],
                        other.envelopes@[j2 as int],
                    )) by {}
            }
            i = i + 1;
        }
        r
    }
}

} // verus!

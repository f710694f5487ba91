//! The `must-not-be-multipart` rule: multi-part geometries are reported,
//! single-part geometries are dropped.

use vstd::prelude::*;

use crate::geometry::{Geometry, MultiLineString, MultiPoint, MultiPolygon};
use crate::result::{mls_views, mpoint_views, mpoly_views, TopologyError, TopologyResult};

verus! {

/// The multipoints of a geometry sequence, in order.
pub open spec fn multipoints_of(gs: Seq<Geometry>) -> Seq<MultiPoint>
    decreases gs.len(),
{
    if gs.len() == 0 {
        Seq::empty()
    } else {
        multipoints_of(gs.drop_last()) + (match gs.last() {
            Geometry::MultiPoint(mp) => seq![mp],
            _ => Seq::empty(),
        })
    }
}

/// The multilinestrings of a geometry sequence, in order.
pub open spec fn multilinestrings_of(gs: Seq<Geometry>) -> Seq<MultiLineString>
    decreases gs.len(),
{
    if gs.len() == 0 {
        Seq::empty()
    } else {
        multilinestrings_of(gs.drop_last()) + (match gs.last() {
            Geometry::MultiLineString(m) => seq![m],
            _ => Seq::empty(),
        })
    }
}

/// The multipolygons of a geometry sequence, in order.
pub open spec fn multipolygons_of(gs: Seq<Geometry>) -> Seq<MultiPolygon>
    decreases gs.len(),
{
    if gs.len() == 0 {
        Seq::empty()
    } else {
        multipolygons_of(gs.drop_last()) + (match gs.last() {
            Geometry::MultiPolygon(m) => seq![m],
            _ => Seq::empty(),
        })
    }
}

/// Report every multi-part geometry, grouped by kind; single-part geometries
/// are dropped.
///
/// The verdict is `Valid` exactly when no multi-part geometry occurs. In an
/// invalid verdict the buckets appear in the order multipoint,
/// multilinestring, multipolygon, each present exactly when its group is
/// non-empty and carrying that group in input order.
pub fn must_not_be_multipart(geometries: Vec<Geometry>) -> (r: TopologyResult)
    ensures
        r is Valid <==> {
            &&& multipoints_of(geometries@).len() == 0
            &&& multilinestrings_of(geometries@).len() == 0
            &&& multipolygons_of(geometries@).len() == 0
        },
        r is Errors ==> {
            let mps = multipoints_of(geometries@);
            let mlss = multilinestrings_of(geometries@);
            let mpys = multipolygons_of(geometries@);
            let errs = r->Errors_0@;
            let n_mp: int = if mps.len() > 0 {
                1int
            } else {
                0int
            };
            let n_mls: int = if mlss.len() > 0 {
                1int
            } else {
                0int
            };
            let n_mpy: int = if mpys.len() > 0 {
                1int
            } else {
                0int
            };
            &&& errs.len() == n_mp + n_mls + n_mpy
            &&& errs.len() > 0
            &&& mps.len() > 0 ==> errs[0] is MultiPoint && mpoint_views(errs[0]->MultiPoint_0@)
                == mpoint_views(mps)
            &&& mlss.len() > 0 ==> errs[n_mp] is MultiLineString && mls_views(
                errs[n_mp]->MultiLineString_0@,
            ) == mls_views(mlss)
            &&& mpys.len() > 0 ==> errs[n_mp + n_mls] is MultiPolygon && mpoly_views(
                errs[n_mp + n_mls]->MultiPolygon_0@,
            ) == mpoly_views(mpys)
        },
{
    let mut multipoints: Vec<MultiPoint> = Vec::new();
    let mut multilinestrings: Vec<MultiLineString> = Vec::new();
    let mut multipolygons: Vec<MultiPolygon> = Vec::new();
    let n: usize = geometries.len();
    let mut i: usize = 0;
    while i < n
        invariant
            n == geometries@.len(),
            0 <= i <= n,
            mpoint_views(multipoints@) == mpoint_views(multipoints_of(geometries@.take(i as int))),
            mls_views(multilinestrings@) == mls_views(
                multilinestrings_of(geometries@.take(i as int)),
            ),
            mpoly_views(multipolygons@) == mpoly_views(
                multipolygons_of(geometries@.take(i as int)),
            ),
        decreases n - i,
    {
        let ghost prefix = geometries@.take(i as int);
        proof {
            assert(geometries@.take(i + 1).drop_last() =~= prefix);
            assert(geometries@.take(i + 1).last() == geometries@[i as int]);
        }
        match &geometries[i] {
            Geometry::MultiPoint(mp) => {
                let ghost before = multipoints@;
                multipoints.push(mp.clone());
                proof {
                    let model = multipoints_of(geometries@.take(i + 1));
                    assert(model == multipoints_of(prefix) + seq![*mp]);
                    assert(mpoint_views(before).len() == before.len());
                    assert(mpoint_views(model).len() == model.len());
                    assert(mpoint_views(multipoints@).len() == multipoints@.len());
                    assert(multipoints@ == before.push(multipoints@[before.len() as int]));
                    assert forall|p: int| 0 <= p < multipoints@.len() implies mpoint_views(multipoints@)[p]
                        == mpoint_views(model)[p] by {
                        if p < before.len() {
                            assert(mpoint_views(before)[p] == before[p]@);
                            assert(mpoint_views(multipoints_of(prefix))[p] == multipoints_of(prefix)[p]@);
                            assert(model[p] == multipoints_of(prefix)[p]);
                        } else {
                            assert(model[p] == *mp);
                        }
                    }
                    assert(mpoint_views(multipoints@) =~= mpoint_views(model));
                }
            },
            Geometry::MultiLineString(mls) => {
                let ghost before = multilinestrings@;
                multilinestrings.push(mls.clone());
                proof {
                    let model = multilinestrings_of(geometries@.take(i + 1));
                    assert(model == multilinestrings_of(prefix) + seq![*mls]);
                    assert(mls_views(before).len() == before.len());
                    assert(mls_views(model).len() == model.len());
                    assert(mls_views(multilinestrings@).len() == multilinestrings@.len());
                    assert(multilinestrings@ == before.push(multilinestrings@[before.len() as int]));
                    assert forall|p: int| 0 <= p < multilinestrings@.len() implies mls_views(multilinestrings@)[p]
                        == mls_views(model)[p] by {
                        if p < before.len() {
                            assert(mls_views(before)[p] == before[p]@);
                            assert(mls_views(multilinestrings_of(prefix))[p] == multilinestrings_of(prefix)[p]@);
                            assert(model[p] == multilinestrings_of(prefix)[p]);
                        } else {
                            assert(model[p] == *mls);
                        }
                    }
                    assert(mls_views(multilinestrings@) =~= mls_views(model));
                }
            },
            Geometry::MultiPolygon(mp) => {
                let ghost before = multipolygons@;
                multipolygons.push(mp.clone());
                proof {
                    let model = multipolygons_of(geometries@.take(i + 1));
                    assert(model == multipolygons_of(prefix) + seq![*mp]);
                    assert(mpoly_views(before).len() == before.len());
                    assert(mpoly_views(model).len() == model.len());
                    assert(mpoly_views(multipolygons@).len() == multipolygons@.len());
                    assert(multipolygons@ == before.push(multipolygons@[before.len() as int]));
                    assert forall|p: int| 0 <= p < multipolygons@.len() implies mpoly_views(multipolygons@)[p]
                        == mpoly_views(model)[p] by {
                        if p < before.len() {
                            assert(mpoly_views(before)[p] == before[p]@);
                            assert(mpoly_views(multipolygons_of(prefix))[p] == multipolygons_of(prefix)[p]@);
                            assert(model[p] == multipolygons_of(prefix)[p]);
                        } else {
                            assert(model[p] == *mp);
                        }
                    }
                    assert(mpoly_views(multipolygons@) =~= mpoly_views(model));
                }
            },
            _ => {
                proof {
                    assert(multipoints_of(geometries@.take(i + 1)) =~= multipoints_of(prefix));
                    assert(multilinestrings_of(geometries@.take(i + 1)) =~= multilinestrings_of(
                        prefix,
                    ));
                    assert(multipolygons_of(geometries@.take(i + 1)) =~= multipolygons_of(prefix));
                }
            },
        }
        i = i + 1;
    }
    proof {
        assert(geometries@.take(n as int) =~= geometries@);
        assert(mpoint_views(multipoints@).len() == multipoints@.len());
        assert(mpoint_views(multipoints_of(geometries@)).len() == multipoints_of(
            geometries@,
        ).len());
        assert(mls_views(multilinestrings@).len() == multilinestrings@.len());
        assert(mls_views(multilinestrings_of(geometries@)).len() == multilinestrings_of(
            geometries@,
        ).len());
        assert(mpoly_views(multipolygons@).len() == multipolygons@.len());
        assert(mpoly_views(multipolygons_of(geometries@)).len() == multipolygons_of(
            geometries@,
        ).len());
    }
    let mut errors: Vec<TopologyError> = Vec::new();
    if multipoints.len() > 0 {
        errors.push(TopologyError::MultiPoint(multipoints));
    }
    if multilinestrings.len() > 0 {
        errors.push(TopologyError::MultiLineString(multilinestrings));
    }
    if multipolygons.len() > 0 {
        errors.push(TopologyError::MultiPolygon(multipolygons));
    }
    if errors.len() == 0 {
        TopologyResult::Valid
    } else {
        TopologyResult::Errors(errors)
    }
}

} // verus!

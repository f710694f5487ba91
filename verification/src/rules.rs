//! The rule names that apply to a geometry kind.

use vstd::prelude::*;

use crate::geometry::Geometry;

verus! {

/// A named topology rule.
#[derive(Clone, Copy, Debug, PartialEq, Eq, Structural)]
pub enum Rules {
    ThereAreNoDangles,
    MustNotIntersect,
    MustNotOverlap,
}

impl Rules {
    /// The rules that can be checked on the given geometry: the line rules
    /// for linestring features, the overlap rule for polygon features, and
    /// none for anything else.
    pub fn available(geometry: &Geometry) -> (r: Option<Vec<Rules>>)
        ensures
            match *geometry {
                Geometry::LineString(_) | Geometry::MultiLineString(_) => r is Some && r->0@
                    == seq![Rules::ThereAreNoDangles, Rules::MustNotIntersect],
                Geometry::Polygon(_) | Geometry::MultiPolygon(_) => r is Some && r->0@ == seq![
                    Rules::MustNotOverlap,
                ],
                _ => r is None,
            },
    {
        match geometry {
            Geometry::LineString(_) | Geometry::MultiLineString(_) => {
                let mut rules: Vec<Rules> = Vec::new();
                rules.push(Rules::ThereAreNoDangles);
                rules.push(Rules::MustNotIntersect);
                proof {
                    assert(rules@ =~= seq![Rules::ThereAreNoDangles, Rules::MustNotIntersect]);
                }
                Some(rules)
            },
            Geometry::Polygon(_) | Geometry::MultiPolygon(_) => {
                let mut rules: Vec<Rules> = Vec::new();
                rules.push(Rules::MustNotOverlap);
                proof {
                    assert(rules@ =~= seq![Rules::MustNotOverlap]);
                }
                Some(rules)
            },
            _ => None,
        }
    }
}

} // verus!

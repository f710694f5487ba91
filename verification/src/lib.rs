//! A topology validator for 2-D vector geometries.
//!
//! Geometries are held with exact fixed-point coordinates: every coordinate
//! is an integer on a grid chosen by the caller (for instance micro-degrees).
//! All geometric predicates are evaluated with exact integer arithmetic, so
//! the rule verdicts carry mathematical contracts instead of floating-point
//! caveats.

use vstd::prelude::*;

pub mod args;
pub mod coord;
pub mod drivers;
pub mod rat;
pub mod result;
pub mod rule;
pub mod rules;
pub mod geometry;
pub mod index;
pub mod laws;
pub mod merge;
pub mod sweep;

verus! {

} // verus!

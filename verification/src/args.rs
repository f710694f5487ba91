//! The validator's command model: which rule to run, on which inputs, and
//! where to write the offending geometries.
//!
//! These types carry only plain values; the command-line front end maps its
//! parsed arguments onto them.

use vstd::prelude::*;

verus! {

/// Top-level invocation: global switches and one command.
pub struct TopologyCheckerArgs {
    /// Driver name to use for the exported datasets.
    pub gdal_driver: Option<String>,
    /// Only use the generic reader.
    pub use_gdal: bool,
    /// Spatial reference code override.
    pub epsg: Option<u32>,
    /// Print elapsed time.
    pub elapsed: bool,
    pub command: Command,
}

/// One invocation of the validator.
pub enum Command {
    Point(PointCommand),
    Line(LineCommand),
    Polygon(PolygonCommand),
    Geometry(GeometryCommand),
    GdalDrivers(GdalDriversCommand),
    Utilities(UtilitiesCommand),
    Interactive { output: String },
}

pub struct PointCommand {
    pub command: PointRules,
}

pub struct LineCommand {
    pub command: LineRules,
}

pub struct PolygonCommand {
    pub command: PolygonRules,
}

pub struct GeometryCommand {
    pub command: GeometryRules,
}

pub struct GdalDriversCommand {
    pub command: Drivers,
}

pub struct UtilitiesCommand {
    pub command: Utilities,
}

/// The rules on point layers.
pub enum PointRules {
    MustNotOverlap { points: String, overlaps: Option<String> },
    MustNotOverlapWith { points: String, other: String, overlaps: Option<String> },
    MustBeInside { points: String, polygons: String, outside: Option<String> },
}

/// The rules on line layers.
pub enum LineRules {
    MustNotOverlap { lines: String, overlaps: Option<String> },
    MustNotOverlapWith { lines: String, other: String, overlaps: Option<String> },
    MustNotSelfOverlap { lines: String, overlaps: Option<String> },
    MustNotHaveDangles { lines: String, dangles: Option<String> },
    MustNotIntersect {
        lines: String,
        single_points: Option<String>,
        collinear_lines: Option<String>,
    },
    MustBeInside { lines: String, polygons: String, outside_lines: Option<String> },
}

/// The rules on polygon layers.
pub enum PolygonRules {
    MustNotOverlap { polygons: String, overlaps: Option<String> },
    MustNotOverlapWith { polygons: String, other: String, overlaps: Option<String> },
    MustNotHaveGaps { polygons: String, gaps: Option<String> },
}

/// The rules on layers of any geometry kind.
pub enum GeometryRules {
    MustNotBeMultipart { geometries: String, multiparts: Option<String> },
}

/// Which driver listing to print.
pub enum Drivers {
    Read,
    Write,
    ReadAndWrite,
}

/// Extra vector data utilities.
pub enum Utilities {
    MergeLinestrings { linestrings: String, merged: String },
    ExplodeLinestrings { linestrings: String, lines: String },
}

/// The kebab-case rule name of a rule command, or `None` for the commands
/// that do not invoke a rule.
pub open spec fn spec_rule_name(command: Command) -> Option<Seq<char>> {
    match command {
        Command::Point(pc) => match pc.command {
            PointRules::MustNotOverlap { .. } => Some("must-not-overlap"@),
            PointRules::MustNotOverlapWith { .. } => Some("must-not-overlap-with"@),
            PointRules::MustBeInside { .. } => Some("must-be-inside"@),
        },
        Command::Line(lc) => match lc.command {
            LineRules::MustNotOverlap { .. } => Some("must-not-overlap"@),
            LineRules::MustNotOverlapWith { .. } => Some("must-not-overlap-with"@),
            LineRules::MustNotSelfOverlap { .. } => Some("must-not-self-overlap"@),
            LineRules::MustNotHaveDangles { .. } => Some("must-not-have-dangles"@),
            LineRules::MustNotIntersect { .. } => Some("must-not-intersect"@),
            LineRules::MustBeInside { .. } => Some("must-be-inside"@),
        },
        Command::Polygon(pc) => match pc.command {
            PolygonRules::MustNotOverlap { .. } => Some("must-not-overlap"@),
            PolygonRules::MustNotOverlapWith { .. } => Some("must-not-overlap-with"@),
            PolygonRules::MustNotHaveGaps { .. } => Some("must-not-have-gaps"@),
        },
        Command::Geometry(gc) => match gc.command {
            GeometryRules::MustNotBeMultipart { .. } => Some("must-not-be-multipart"@),
        },
        _ => None,
    }
}

/// The kebab-case name of the rule a command invokes, used to label
/// summaries and exported layers; `None` for the utility commands.
pub fn rule_name(command: &Command) -> (r: Option<String>)
    ensures
        match r {
            Some(s) => spec_rule_name(*command) == Some(s@),
            None => spec_rule_name(*command) is None,
        },
{
    let name: &'static str = match command {
        Command::Point(pc) => match pc.command {
            PointRules::MustNotOverlap { .. } => "must-not-overlap",
            PointRules::MustNotOverlapWith { .. } => "must-not-overlap-with",
            PointRules::MustBeInside { .. } => "must-be-inside",
        },
        Command::Line(lc) => match lc.command {
            LineRules::MustNotOverlap { .. } => "must-not-overlap",
            LineRules::MustNotOverlapWith { .. } => "must-not-overlap-with",
            LineRules::MustNotSelfOverlap { .. } => "must-not-self-overlap",
            LineRules::MustNotHaveDangles { .. } => "must-not-have-dangles",
            LineRules::MustNotIntersect { .. } => "must-not-intersect",
            LineRules::MustBeInside { .. } => "must-be-inside",
        },
        Command::Polygon(pc) => match pc.command {
            PolygonRules::MustNotOverlap { .. } => "must-not-overlap",
            PolygonRules::MustNotOverlapWith { .. } => "must-not-overlap-with",
            PolygonRules::MustNotHaveGaps { .. } => "must-not-have-gaps",
        },
        Command::Geometry(gc) => match gc.command {
            GeometryRules::MustNotBeMultipart { .. } => "must-not-be-multipart",
        },
        Command::GdalDrivers(_) => {
            return None;
        },
        Command::Utilities(_) => {
            return None;
        },
        Command::Interactive { .. } => {
            return None;
        },
    };
    Some(String::from_str(name))
}

} // verus!

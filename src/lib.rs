//! Cartographic rendering core: classification of a numeric attribute into
//! classes, bounding extents, reprojection of geometry collections and the
//! conversion of projected coordinates into viewport path commands.
//!
//! Every number here is an integer. Sample values and coordinates are fixed-point
//! quantities in units chosen by the caller (for geographic coordinates, see
//! `geometry::UNITS_PER_DEGREE`), so all arithmetic is exact.
use vstd::prelude::*;

pub mod classification;
pub mod config_params;
pub mod converter;
pub mod geometry;
pub mod graticule;
pub mod layer;
pub mod palette;
pub mod properties;

verus! {

/// The ways in which the core can refuse its input.
#[derive(PartialEq, Eq, Structural, Debug, Clone, Copy)]
pub enum CoreError {
    /// A class count of zero, an empty sample, or too few values for the requested classes.
    InvalidInput,
    /// A geometry collection without a single coordinate.
    EmptyInput,
    /// A geometry collection nested in a collection.
    UnsupportedGeometry,
    /// A coordinate that could not be projected, in strict mode.
    ProjectionFailure,
    /// A value outside the bounds of a classification.
    LookupFailure,
    /// A classification method whose boundaries are computed outside the core.
    UnsupportedMethod,
    /// A colour palette that is unknown, or has no ramp of the requested size.
    PaletteUnavailable,
}

} // verus!

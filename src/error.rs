use vstd::prelude::*;

verus! {

/// One of the four corners of the marker frame.
#[derive(Clone, Copy, Debug, PartialEq, Eq, Structural)]
pub enum Corner {
    TopLeft,
    TopRight,
    BottomLeft,
    BottomRight,
}

/// Failures of the analysis passes.
#[derive(Clone, Copy, Debug, PartialEq, Eq, Structural)]
pub enum ExtractError {
    /// The scan budget for the corner was exhausted without finding a fiducial.
    MarkerNotFound(Corner),
    /// The four located fiducials violate the ordering invariants.
    MarkerGeometry,
    /// The marker scan would reach the middle of the image.
    ConfigurationInvalid,
    /// An edge walk was asked for fewer than two steps.
    EdgeIteratorInvalid,
    /// A rectangle with zero width or height was requested.
    AreaEmpty,
    /// A rectangle does not lie inside the image.
    AreaOutOfBounds,
}

} // verus!

//! Colour quantisation and dithering: nearest-colour palette matching,
//! ordered (Bayer) dithering, error diffusion and noise dithering over an
//! in-memory RGB raster.

use vstd::prelude::*;

pub mod bayer;
pub mod color;
pub mod diffusion;
pub mod noise;
pub mod palette;
pub mod raster;

verus! {

/// Failures that the dithering core reports to its caller.
#[derive(Clone, Copy, Debug, PartialEq, Eq, Structural)]
pub enum DitherError {
    /// The palette is empty, or smaller or larger than the mode allows.
    InvalidPalette,
    /// A threshold matrix was requested with an order that is not a positive
    /// power of two.
    InvalidMatrixOrder,
    /// A diffusion kernel whose grid is ragged or empty, whose origin lies
    /// outside the grid, whose denominator is zero, or which pushes error onto
    /// a cell at or before its origin in scan order.
    InvalidKernel,
}

} // verus!

//! Approximates a raster image by a mosaic of flat-coloured nearest-point
//! zones, refined by repeatedly splitting the zone that a flat colour fits
//! worst.
use vstd::prelude::*;

pub mod position;
pub mod partition;
pub mod raster;
pub mod zone;
pub mod refiner;
mod sampling;
pub mod mosaic;

verus! {

} // verus!

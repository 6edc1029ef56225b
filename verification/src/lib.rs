//! Isolines of a sampled scalar field, extracted cell by cell and drawn into an
//! RGB raster. Scalars are fixed-point numbers with 32 fractional bits.

pub mod fixed;
pub mod buffer;
pub mod drawing;
pub mod contour;
pub mod sampling;
pub mod solid;

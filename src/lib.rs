//! Approximates a square raster with a mosaic of coloured disks: the worst
//! fitting region is split into four quadrant disks until a width floor or an
//! iteration budget is reached, then the disks are painted over an estimated
//! background colour.
pub mod raster;
pub mod disk;
pub mod engine;
pub mod options;
pub mod laws;

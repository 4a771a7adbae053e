//! A Mandelbrot-set rendering core.
//!
//! The library holds the decisions of the renderer that are plain data in,
//! plain data out: parsing the textual configuration (pixel bounds, plane
//! corners, colors) and partitioning the output raster into the disjoint
//! row bands that the workers fill. The floating-point iteration itself is
//! performed by the surrounding program on top of these verified pieces.
pub mod bands;
pub mod color;
pub mod parse;

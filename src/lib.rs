//! Variance-driven quadtree segmentation of RGB rasters.
//!
//! A summed-area table answers the sum and the sum of squares of any
//! rectangle in constant time; a frontier of rectangles is refined by
//! repeatedly quartering the rectangle with the largest scaled variance;
//! a renderer paints each rectangle of the frontier with its mean colour.
//!
//! Choices made where several behaviours would be reasonable:
//! - a rectangle too thin to quarter stays in the frontier unchanged, so the
//!   frontier always partitions the image;
//! - priorities are exact fractions (`spread / area`), and equal priorities are
//!   broken by the smaller `(left, top, right, bottom)`;
//! - mean colours are truncated, not rounded.
pub mod raster;
pub mod sums;
pub mod sat;
pub mod segment;
pub mod frontier;
pub mod render;
pub mod laws;
pub mod variance;


//! Line rasterisers.
pub mod midpoint_line;

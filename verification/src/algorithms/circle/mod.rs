//! Circle rasterisers built on the shared [`circle_base::CircleBase`].
pub mod circle_base;
pub mod midpoint_circle;
pub mod baseline_circle;
pub mod gap_fill_circle;
pub mod sitaraman_fill_circle;
pub mod scanline_circle;
pub mod parallel_midpoint_circle;

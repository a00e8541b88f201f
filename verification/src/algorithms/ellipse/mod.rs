//! Ellipse rasterisers built on the shared [`ellipse_base::EllipseBase`].
pub mod ellipse_base;
pub mod midpoint_ellipse;
pub mod gap_fill_ellipse;
pub mod own_fill_ellipse;
pub mod virtual_fill_ellipse;

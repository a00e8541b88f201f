//! Integer rasterisation of circles, ellipses and lines on a pixel grid, with
//! the midpoint decision recurrences proved against their closed forms.
pub mod algorithms;

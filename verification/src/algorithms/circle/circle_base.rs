//! State and helpers shared by the circle rasterisers.
use vstd::prelude::*;

use crate::algorithms::cell_text::{circle_cell_text, format_circle_cell, place_of, place_word};
use crate::algorithms::duplicates::{
    cache_agrees, is_repeated, repeated_cached, repeated_flags,
};
use crate::algorithms::{cells, fits_i32, Point};

verus! {

/// The implicit circle function `(x - cx)² + (y - cy)² - r²`.
pub open spec fn circle_decision(cx: int, cy: int, r: int, x: int, y: int) -> int {
    (x - cx) * (x - cx) + (y - cy) * (y - cy) - r * r
}

/// Every intermediate value of the `i32` evaluation of the circle function
/// at `(x, y)` is representable.
pub open spec fn circle_decision_fits(cx: int, cy: int, r: int, x: int, y: int) -> bool {
    &&& fits_i32(x - cx)
    &&& fits_i32(y - cy)
    &&& fits_i32((x - cx) * (x - cx))
    &&& fits_i32((y - cy) * (y - cy))
    &&& fits_i32(r * r)
    &&& fits_i32((x - cx) * (x - cx) + (y - cy) * (y - cy))
    &&& fits_i32(circle_decision(cx, cy, r, x, y))
}

/// Base struct containing common functionality for circle algorithms.
pub struct CircleBase {
    pub center_x: i32,
    pub center_y: i32,
    pub radius: i32,
    pub show_smooth_overlay: bool,
    pub points: Vec<Point>,
    pub show_duplicates: bool,
    pub duplicate_cache: Option<Vec<bool>>,
}

impl CircleBase {
    /// The duplicate cache is empty or agrees with `points`.
    pub open spec fn cache_valid(&self) -> bool {
        cache_agrees(self.duplicate_cache, self.points@)
    }

    /// `other` has the same center, radius and switches as `self`.
    pub open spec fn same_settings(&self, other: &CircleBase) -> bool {
        &&& self.center_x == other.center_x
        &&& self.center_y == other.center_y
        &&& self.radius == other.radius
        &&& self.show_smooth_overlay == other.show_smooth_overlay
        &&& self.show_duplicates == other.show_duplicates
    }

    /// The duplicate cache holds no flags.
    pub open spec fn cache_empty(&self) -> bool {
        self.duplicate_cache is None
    }

    /// Create a new CircleBase with default values.
    pub fn new(center_x: i32, center_y: i32, radius: i32) -> (s: Self)
        ensures
            s.center_x == center_x,
            s.center_y == center_y,
            s.radius == radius,
            !s.show_smooth_overlay,
            s.points@.len() == 0,
            !s.show_duplicates,
            s.cache_empty(),
            s.cache_valid(),
    {
        CircleBase {
            center_x,
            center_y,
            radius,
            show_smooth_overlay: false,
            points: Vec::new(),
            show_duplicates: false,
            duplicate_cache: None,
        }
    }

    /// The analytic overlay `(cx, cy, radius)` when it is switched on.
    pub fn overlay_circle_base(&self) -> (o: Option<(i32, i32, i32)>)
        ensures
            o == (if self.show_smooth_overlay {
                Some((self.center_x, self.center_y, self.radius))
            } else {
                None
            }),
    {
        if self.show_smooth_overlay {
            Some((self.center_x, self.center_y, self.radius))
        } else {
            None
        }
    }

    /// The implicit-equation text for the cell `(cx, cy)`.
    pub fn cell_info_base(&self, cx: i32, cy: i32) -> (info: Option<String>)
        requires
            circle_decision_fits(
                self.center_x as int,
                self.center_y as int,
                self.radius as int,
                cx as int,
                cy as int,
            ),
        ensures
            info matches Some(t) && t@ == circle_cell_text(
                circle_decision(
                    self.center_x as int,
                    self.center_y as int,
                    self.radius as int,
                    cx as int,
                    cy as int,
                ),
                place_word(
                    circle_decision(
                        self.center_x as int,
                        self.center_y as int,
                        self.radius as int,
                        cx as int,
                        cy as int,
                    ),
                ),
            ),
    {
        let d = self.decision_parameter(cx, cy);
        let place = place_of(d as i64);
        Some(format_circle_cell(d, place))
    }

    /// Implicit circle equation: negative ⟹ inside, zero ⟹ on, positive ⟹ outside.
    pub fn decision_parameter(&self, x: i32, y: i32) -> (d: i32)
        requires
            circle_decision_fits(
                self.center_x as int,
                self.center_y as int,
                self.radius as int,
                x as int,
                y as int,
            ),
        ensures
            d == circle_decision(
                self.center_x as int,
                self.center_y as int,
                self.radius as int,
                x as int,
                y as int,
            ),
    {
        let dx = x - self.center_x;
        let dy = y - self.center_y;
        dx * dx + dy * dy - self.radius * self.radius
    }

    /// Duplicate-aware colour for point `i`: `highlight` when duplicate
    /// highlighting is on and the cell of point `i` occurs more than once,
    /// `fallback` otherwise.
    pub fn duplicate_color<T>(&self, i: usize, fallback: Option<T>, highlight: T) -> (c: Option<T>)
        requires
            self.cache_valid(),
            self.show_duplicates ==> i < self.points@.len(),
        ensures
            c == (if self.show_duplicates && is_repeated(cells(self.points@), i as int) {
                Some(highlight)
            } else {
                fallback
            }),
    {
        if !self.show_duplicates {
            return fallback;
        }
        if repeated_cached(&self.duplicate_cache, &self.points, i) {
            Some(highlight)
        } else {
            fallback
        }
    }

    /// Forget the duplicate flags (call whenever `points` is rebuilt).
    pub fn invalidate_cache(&mut self)
        ensures
            final(self).cache_empty(),
            final(self).cache_valid(),
            final(self).points@ == old(self).points@,
            final(self).center_x == old(self).center_x,
            final(self).center_y == old(self).center_y,
            final(self).radius == old(self).radius,
            final(self).show_smooth_overlay == old(self).show_smooth_overlay,
            final(self).show_duplicates == old(self).show_duplicates,
    {
        self.duplicate_cache = None;
    }

    /// Fill the duplicate flags for the current points.
    pub fn refresh_duplicate_cache(&mut self)
        ensures
            !final(self).cache_empty(),
            final(self).cache_valid(),
            final(self).points@ == old(self).points@,
            final(self).center_x == old(self).center_x,
            final(self).center_y == old(self).center_y,
            final(self).radius == old(self).radius,
            final(self).show_smooth_overlay == old(self).show_smooth_overlay,
            final(self).show_duplicates == old(self).show_duplicates,
    {
        let flags = repeated_flags(&self.points);
        self.duplicate_cache = Some(flags);
    }
}

} // verus!

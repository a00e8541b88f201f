//! A disc filled with horizontal spans between the mirrored pixels of the
//! midpoint circle, with its own center and radius.
use vstd::prelude::*;

use crate::algorithms::cell_text::{circle_cell_text, format_circle_cell, place_of, place_word};
use crate::algorithms::circle::circle_base::{circle_decision, circle_decision_fits};
use crate::algorithms::circle_walk::{
    circle_fits, lemma_walk_start, lemma_walk_step, octant_walk, walk_inv,
};
use crate::algorithms::duplicates::{cache_agrees, is_repeated, repeated_cached};
use crate::algorithms::scanline::{lemma_scan_advance, push_span, scan_all, scanline_disc, span};
use crate::algorithms::{cells, Point};

verus! {

pub struct ScanlineCircle {
    pub center_x: i32,
    pub center_y: i32,
    pub radius: i32,
    pub show_smooth_overlay: bool,
    pub points: Vec<Point>,
    pub show_duplicates: bool,
    pub duplicate_cache: Option<Vec<bool>>,
}

impl Default for ScanlineCircle {
    /// A filled circle of radius 15 around the origin, already computed.
    fn default() -> (s: Self)
        ensures
            s.center_x == 0 && s.center_y == 0 && s.radius == 15,
            !s.show_duplicates,
            s.plotted() == scanline_disc(0, 0, 15),
            s.cache_valid(),
    {
        let mut s = ScanlineCircle {
            center_x: 0,
            center_y: 0,
            radius: 15,
            show_smooth_overlay: false,
            points: Vec::new(),
            show_duplicates: false,
            duplicate_cache: None,
        };
        s.compute();
        s
    }
}

impl ScanlineCircle {
    /// The cells plotted by the last `compute`.
    pub open spec fn plotted(&self) -> Seq<(int, int)> {
        cells(self.points@)
    }

    /// The duplicate cache is empty or agrees with the points.
    pub open spec fn cache_valid(&self) -> bool {
        cache_agrees(self.duplicate_cache, self.points@)
    }

    pub fn name(&self) -> (n: &'static str)
        ensures
            n@ == "Scanline Circle"@,
    {
        "Scanline Circle"
    }

    /// For every octant pixel of the midpoint walk, fill the four horizontal
    /// spans between its mirrored images.
    pub fn compute(&mut self)
        requires
            circle_fits(
                old(self).center_x as int,
                old(self).center_y as int,
                old(self).radius as int,
            ),
        ensures
            final(self).same_settings(old(self)),
            final(self).duplicate_cache is None,
            final(self).plotted() == scanline_disc(
                old(self).center_x as int,
                old(self).center_y as int,
                old(self).radius as int,
            ),
    {
        self.points.clear();
        self.duplicate_cache = None;
        let ghost cx = self.center_x as int;
        let ghost cy = self.center_y as int;
        let ghost r = self.radius as int;
        let mut x: i32 = 0;
        let mut y: i32 = self.radius;
        let mut d: i32 = 1 - self.radius;
        proof {
            if r >= 0 {
                lemma_walk_start(r);
            }
            assert(cells(self.points@) =~= Seq::<(int, int)>::empty());
        }
        while x <= y
            invariant
                self.same_settings(old(self)),
                self.duplicate_cache is None,
                cx == self.center_x,
                cy == self.center_y,
                r == self.radius,
                circle_fits(cx, cy, r),
                r >= 0 ==> walk_inv(r, x as int, y as int, d as int),
                r < 0 ==> x > y,
                cells(self.points@) + scan_all(cx, cy, octant_walk(x as int, y as int, d as int))
                    == scanline_disc(cx, cy, r),
            decreases y - x + 2,
        {
            proof {
                lemma_walk_step(r, x as int, y as int, d as int);
                lemma_scan_advance(
                    cx,
                    cy,
                    x as int,
                    y as int,
                    d as int,
                    cells(self.points@),
                    scanline_disc(cx, cy, r),
                );
            }
            self.fill_scanline(self.center_y + y, self.center_x - x, self.center_x + x);
            self.fill_scanline(self.center_y - y, self.center_x - x, self.center_x + x);
            self.fill_scanline(self.center_y + x, self.center_x - y, self.center_x + y);
            self.fill_scanline(self.center_y - x, self.center_x - y, self.center_x + y);
            if d < 0 {
                d += 2 * x + 3;
            } else {
                d += 2 * (x - y) + 5;
                y -= 1;
            }
            x += 1;
        }
        proof {
            assert(scan_all(cx, cy, octant_walk(x as int, y as int, d as int)) =~= Seq::<
                (int, int),
            >::empty());
            assert(cells(self.points@) =~= scanline_disc(cx, cy, r));
        }
    }

    /// The plotted points, in plotting order.
    pub fn points(&self) -> (ps: &[Point])
        ensures
            cells(ps@) == self.plotted(),
    {
        self.points.as_slice()
    }

    /// `highlight` for a point whose cell is filled more than once, when
    /// duplicates are highlighted; `None` otherwise.
    pub fn point_color_override<T>(&self, i: usize, highlight: T) -> (c: Option<T>)
        requires
            self.cache_valid(),
            self.show_duplicates ==> i < self.points@.len(),
        ensures
            c == (if self.show_duplicates && is_repeated(self.plotted(), i as int) {
                Some(highlight)
            } else {
                None
            }),
    {
        if !self.show_duplicates {
            return None;
        }
        if repeated_cached(&self.duplicate_cache, &self.points, i) {
            Some(highlight)
        } else {
            None
        }
    }

    /// `other` has the same center, radius and switches as `self`.
    pub open spec fn same_settings(&self, other: &Self) -> bool {
        &&& self.center_x == other.center_x
        &&& self.center_y == other.center_y
        &&& self.radius == other.radius
        &&& self.show_smooth_overlay == other.show_smooth_overlay
        &&& self.show_duplicates == other.show_duplicates
    }

    pub fn overlay_circle(&self) -> (o: Option<(i32, i32, i32)>)
        ensures
            o == (if self.show_smooth_overlay {
                Some((self.center_x, self.center_y, self.radius))
            } else {
                None
            }),
    {
        if self.show_smooth_overlay {
            Some((self.center_x, self.center_y, self.radius))
        } else {
            None
        }
    }

    pub fn cell_info(&self, cx: i32, cy: i32) -> (info: Option<String>)
        requires
            circle_decision_fits(
                self.center_x as int,
                self.center_y as int,
                self.radius as int,
                cx as int,
                cy as int,
            ),
        ensures
            info matches Some(t) && t@ == circle_cell_text(
                circle_decision(
                    self.center_x as int,
                    self.center_y as int,
                    self.radius as int,
                    cx as int,
                    cy as int,
                ),
                place_word(
                    circle_decision(
                        self.center_x as int,
                        self.center_y as int,
                        self.radius as int,
                        cx as int,
                        cy as int,
                    ),
                ),
            ),
    {
        let d = self.decision_parameter(cx, cy);
        let place = place_of(d as i64);
        Some(format_circle_cell(d, place))
    }

    /// Implicit circle equation: negative ⟹ inside, zero ⟹ on, positive ⟹ outside.
    pub fn decision_parameter(&self, x: i32, y: i32) -> (d: i32)
        requires
            circle_decision_fits(
                self.center_x as int,
                self.center_y as int,
                self.radius as int,
                x as int,
                y as int,
            ),
        ensures
            d == circle_decision(
                self.center_x as int,
                self.center_y as int,
                self.radius as int,
                x as int,
                y as int,
            ),
    {
        let dx = x - self.center_x;
        let dy = y - self.center_y;
        dx * dx + dy * dy - self.radius * self.radius
    }

    /// Fill the cells `(x_start, row) ..= (x_end, row)`.
    fn fill_scanline(&mut self, row: i32, x_start: i32, x_end: i32)
        ensures
            final(self).same_settings(old(self)),
            final(self).duplicate_cache == old(self).duplicate_cache,
            cells(final(self).points@) == cells(old(self).points@) + span(
                row as int,
                x_start as int,
                x_end as int,
            ),
    {
        push_span(&mut self.points, row, x_start, x_end);
    }
}

} // verus!

//! The classic midpoint circle outline, with its own center and radius.
use vstd::prelude::*;

use crate::algorithms::cell_text::{circle_cell_text, format_circle_cell, place_of, place_word};
use crate::algorithms::circle::circle_base::{circle_decision, circle_decision_fits};
use crate::algorithms::circle_walk::{
    circle_fits, circle_outline, lemma_walk_advance, lemma_walk_done, lemma_walk_start,
    lemma_walk_step, octant_walk, push_octants, walk_inv,
};
use crate::algorithms::{cells, Point};

verus! {

pub struct MidpointCircle {
    pub center_x: i32,
    pub center_y: i32,
    pub radius: i32,
    pub show_smooth_overlay: bool,
    pub points: Vec<Point>,
}

impl Default for MidpointCircle {
    /// A circle of radius 15 around the origin, already computed.
    fn default() -> (s: Self)
        ensures
            s.center_x == 0 && s.center_y == 0 && s.radius == 15,
            !s.show_smooth_overlay,
            s.plotted() == circle_outline(0, 0, 15),
    {
        let mut s = MidpointCircle {
            center_x: 0,
            center_y: 0,
            radius: 15,
            show_smooth_overlay: false,
            points: Vec::new(),
        };
        s.compute();
        s
    }
}

impl MidpointCircle {
    /// The cells plotted by the last `compute`.
    pub open spec fn plotted(&self) -> Seq<(int, int)> {
        cells(self.points@)
    }

    pub fn name(&self) -> (n: &'static str)
        ensures
            n@ == "Midpoint Circle"@,
    {
        "Midpoint Circle"
    }

    /// Recompute the outline from the current center and radius.
    pub fn compute(&mut self)
        requires
            circle_fits(
                old(self).center_x as int,
                old(self).center_y as int,
                old(self).radius as int,
            ),
        ensures
            final(self).same_settings(old(self)),
            final(self).plotted() == circle_outline(
                old(self).center_x as int,
                old(self).center_y as int,
                old(self).radius as int,
            ),
    {
        self.points.clear();
        let ghost cx = self.center_x as int;
        let ghost cy = self.center_y as int;
        let ghost r = self.radius as int;
        let mut x: i32 = 0;
        let mut y: i32 = self.radius;
        let mut d: i32 = 1 - self.radius;
        proof {
            if r >= 0 {
                lemma_walk_start(r);
            }
            assert(cells(self.points@) =~= Seq::<(int, int)>::empty());
        }
        while x <= y
            invariant
                self.same_settings(old(self)),
                cx == self.center_x,
                cy == self.center_y,
                r == self.radius,
                circle_fits(cx, cy, r),
                r >= 0 ==> walk_inv(r, x as int, y as int, d as int),
                r < 0 ==> x > y,
                cells(self.points@) + crate::algorithms::circle_walk::mirror8_all(
                    cx,
                    cy,
                    octant_walk(x as int, y as int, d as int),
                ) == circle_outline(cx, cy, r),
            decreases y - x + 2,
        {
            proof {
                lemma_walk_step(r, x as int, y as int, d as int);
                lemma_walk_advance(
                    cx,
                    cy,
                    x as int,
                    y as int,
                    d as int,
                    cells(self.points@),
                    circle_outline(cx, cy, r),
                );
            }
            self.plot_octants(x, y);
            if d < 0 {
                d += 2 * x + 3;
            } else {
                d += 2 * (x - y) + 5;
                y -= 1;
            }
            x += 1;
        }
        proof {
            lemma_walk_done(cx, cy, x as int, y as int, d as int);
            assert(cells(self.points@) =~= circle_outline(cx, cy, r));
        }
    }

    /// The plotted points, in plotting order.
    pub fn points(&self) -> (ps: &[Point])
        ensures
            cells(ps@) == self.plotted(),
    {
        self.points.as_slice()
    }

    /// `other` has the same center, radius and overlay switch as `self`.
    pub open spec fn same_settings(&self, other: &Self) -> bool {
        &&& self.center_x == other.center_x
        &&& self.center_y == other.center_y
        &&& self.radius == other.radius
        &&& self.show_smooth_overlay == other.show_smooth_overlay
    }

    pub fn overlay_circle(&self) -> (o: Option<(i32, i32, i32)>)
        ensures
            o == (if self.show_smooth_overlay {
                Some((self.center_x, self.center_y, self.radius))
            } else {
                None
            }),
    {
        if self.show_smooth_overlay {
            Some((self.center_x, self.center_y, self.radius))
        } else {
            None
        }
    }

    pub fn cell_info(&self, cx: i32, cy: i32) -> (info: Option<String>)
        requires
            circle_decision_fits(
                self.center_x as int,
                self.center_y as int,
                self.radius as int,
                cx as int,
                cy as int,
            ),
        ensures
            info matches Some(t) && t@ == circle_cell_text(
                circle_decision(
                    self.center_x as int,
                    self.center_y as int,
                    self.radius as int,
                    cx as int,
                    cy as int,
                ),
                place_word(
                    circle_decision(
                        self.center_x as int,
                        self.center_y as int,
                        self.radius as int,
                        cx as int,
                        cy as int,
                    ),
                ),
            ),
    {
        let d = self.decision_parameter(cx, cy);
        let place = place_of(d as i64);
        Some(format_circle_cell(d, place))
    }

    /// Implicit circle equation: negative ⟹ inside, zero ⟹ on, positive ⟹ outside.
    pub fn decision_parameter(&self, x: i32, y: i32) -> (d: i32)
        requires
            circle_decision_fits(
                self.center_x as int,
                self.center_y as int,
                self.radius as int,
                x as int,
                y as int,
            ),
        ensures
            d == circle_decision(
                self.center_x as int,
                self.center_y as int,
                self.radius as int,
                x as int,
                y as int,
            ),
    {
        let dx = x - self.center_x;
        let dy = y - self.center_y;
        dx * dx + dy * dy - self.radius * self.radius
    }

    /// Plot the eight symmetric images of the octant pixel `(x, y)`.
    fn plot_octants(&mut self, x: i32, y: i32)
        requires
            0 <= x <= y,
            circle_fits(
                old(self).center_x as int,
                old(self).center_y as int,
                y as int,
            ),
        ensures
            final(self).same_settings(old(self)),
            cells(final(self).points@) == cells(old(self).points@)
                + crate::algorithms::circle_walk::mirror8(
                old(self).center_x as int,
                old(self).center_y as int,
                x as int,
                y as int,
            ),
    {
        let cx = self.center_x;
        let cy = self.center_y;
        push_octants(&mut self.points, cx, cy, x, y);
    }
}

} // verus!

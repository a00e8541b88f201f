//! The classic midpoint circle outline.
use vstd::prelude::*;

use crate::algorithms::cell_text::{circle_cell_text, place_word};
use crate::algorithms::circle::circle_base::{circle_decision, circle_decision_fits, CircleBase};
use crate::algorithms::circle_walk::{
    circle_fits, circle_outline, lemma_walk_advance, lemma_walk_done, lemma_walk_start,
    lemma_walk_step, octant_walk, push_octants, walk_inv,
};
use crate::algorithms::{cells, Point};

verus! {

pub struct MidpointCircle {
    pub base: CircleBase,
    pub points: Vec<Point>,
}

impl Default for MidpointCircle {
    /// A circle of radius 15 around the origin, already computed.
    fn default() -> (s: Self)
        ensures
            s.base.center_x == 0 && s.base.center_y == 0 && s.base.radius == 15,
            !s.base.show_smooth_overlay,
            s.plotted() == circle_outline(0, 0, 15),
    {
        let mut s = MidpointCircle { base: CircleBase::new(0, 0, 15), points: Vec::new() };
        s.compute();
        s
    }
}

impl MidpointCircle {
    /// The cells plotted by the last `compute`.
    pub open spec fn plotted(&self) -> Seq<(int, int)> {
        cells(self.points@)
    }

    pub fn name(&self) -> (n: &'static str)
        ensures
            n@ == "Midpoint Circle"@,
    {
        "Midpoint Circle"
    }

    pub fn category(&self) -> (c: &'static str)
        ensures
            c@ == "circle"@,
    {
        "circle"
    }

    /// Recompute the outline from the current center and radius.
    pub fn compute(&mut self)
        requires
            circle_fits(
                old(self).base.center_x as int,
                old(self).base.center_y as int,
                old(self).base.radius as int,
            ),
        ensures
            final(self).base == old(self).base,
            final(self).plotted() == circle_outline(
                old(self).base.center_x as int,
                old(self).base.center_y as int,
                old(self).base.radius as int,
            ),
    {
        self.points.clear();
        let ghost cx = self.base.center_x as int;
        let ghost cy = self.base.center_y as int;
        let ghost r = self.base.radius as int;
        let mut x: i32 = 0;
        let mut y: i32 = self.base.radius;
        let mut d: i32 = 1 - self.base.radius;
        proof {
            if r >= 0 {
                lemma_walk_start(r);
            }
            assert(cells(self.points@) =~= Seq::<(int, int)>::empty());
        }
        while x <= y
            invariant
                self.base == old(self).base,
                cx == self.base.center_x,
                cy == self.base.center_y,
                r == self.base.radius,
                circle_fits(cx, cy, r),
                r >= 0 ==> walk_inv(r, x as int, y as int, d as int),
                r < 0 ==> x > y,
                cells(self.points@) + crate::algorithms::circle_walk::mirror8_all(
                    cx,
                    cy,
                    octant_walk(x as int, y as int, d as int),
                ) == circle_outline(cx, cy, r),
            decreases y - x + 2,
        {
            proof {
                lemma_walk_step(r, x as int, y as int, d as int);
                lemma_walk_advance(
                    cx,
                    cy,
                    x as int,
                    y as int,
                    d as int,
                    cells(self.points@),
                    circle_outline(cx, cy, r),
                );
            }
            self.plot_octants(x, y);
            if d < 0 {
                d += 2 * x + 3;
            } else {
                d += 2 * (x - y) + 5;
                y -= 1;
            }
            x += 1;
        }
        proof {
            lemma_walk_done(cx, cy, x as int, y as int, d as int);
            assert(cells(self.points@) =~= circle_outline(cx, cy, r));
        }
    }

    /// The plotted points, in plotting order.
    pub fn points(&self) -> (ps: &[Point])
        ensures
            cells(ps@) == self.plotted(),
    {
        self.points.as_slice()
    }

    pub fn overlay_circle(&self) -> (o: Option<(i32, i32, i32)>)
        ensures
            o == (if self.base.show_smooth_overlay {
                Some((self.base.center_x, self.base.center_y, self.base.radius))
            } else {
                None
            }),
    {
        self.base.overlay_circle_base()
    }

    pub fn cell_info(&self, cx: i32, cy: i32) -> (info: Option<String>)
        requires
            circle_decision_fits(
                self.base.center_x as int,
                self.base.center_y as int,
                self.base.radius as int,
                cx as int,
                cy as int,
            ),
        ensures
            info matches Some(t) && t@ == circle_cell_text(
                circle_decision(
                    self.base.center_x as int,
                    self.base.center_y as int,
                    self.base.radius as int,
                    cx as int,
                    cy as int,
                ),
                place_word(
                    circle_decision(
                        self.base.center_x as int,
                        self.base.center_y as int,
                        self.base.radius as int,
                        cx as int,
                        cy as int,
                    ),
                ),
            ),
    {
        self.base.cell_info_base(cx, cy)
    }

    /// Plot the eight symmetric images of the octant pixel `(x, y)`.
    fn plot_octants(&mut self, x: i32, y: i32)
        requires
            0 <= x <= y,
            circle_fits(
                old(self).base.center_x as int,
                old(self).base.center_y as int,
                y as int,
            ),
        ensures
            final(self).base == old(self).base,
            cells(final(self).points@) == cells(old(self).points@)
                + crate::algorithms::circle_walk::mirror8(
                old(self).base.center_x as int,
                old(self).base.center_y as int,
                x as int,
                y as int,
            ),
    {
        let cx = self.base.center_x;
        let cy = self.base.center_y;
        push_octants(&mut self.points, cx, cy, x, y);
    }
}

} // verus!

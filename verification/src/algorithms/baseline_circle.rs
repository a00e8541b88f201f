//! The brute-force disc, with its own center and radius: every cell of the
//! bounding square tested against the implicit circle equation.
use vstd::prelude::*;

use crate::algorithms::cell_text::{circle_cell_text, format_circle_cell, place_of, place_word};
use crate::algorithms::circle::circle_base::{circle_decision, circle_decision_fits};
use crate::algorithms::circle::baseline_circle::lemma_square_sum_bound;
use crate::algorithms::disc::{baseline_fits, disc_cells, disc_row, disc_rows};
use crate::algorithms::{cells, lemma_cells_push, Point};

verus! {

pub struct BaselineCircle {
    pub center_x: i32,
    pub center_y: i32,
    pub radius: i32,
    pub show_smooth_overlay: bool,
    pub points: Vec<Point>,
}

impl Default for BaselineCircle {
    /// A disc of radius 15 around the origin, already computed.
    fn default() -> (s: Self)
        ensures
            s.center_x == 0 && s.center_y == 0 && s.radius == 15,
            !s.show_smooth_overlay,
            s.plotted() == disc_cells(0, 0, 15),
    {
        let mut s = BaselineCircle {
            center_x: 0,
            center_y: 0,
            radius: 15,
            show_smooth_overlay: false,
            points: Vec::new(),
        };
        s.compute();
        s
    }
}

impl BaselineCircle {
    /// The cells plotted by the last `compute`.
    pub open spec fn plotted(&self) -> Seq<(int, int)> {
        cells(self.points@)
    }

    pub fn name(&self) -> (n: &'static str)
        ensures
            n@ == "Baseline Circle (Implicit Equation)"@,
    {
        "Baseline Circle (Implicit Equation)"
    }

    /// Scan the bounding square row by row and keep every cell whose
    /// implicit circle value is not positive.
    pub fn compute(&mut self)
        requires
            baseline_fits(
                old(self).center_x as int,
                old(self).center_y as int,
                old(self).radius as int,
            ),
        ensures
            final(self).same_settings(old(self)),
            final(self).plotted() == disc_cells(
                old(self).center_x as int,
                old(self).center_y as int,
                old(self).radius as int,
            ),
    {
        self.points.clear();
        let ghost cx = self.center_x as int;
        let ghost cy = self.center_y as int;
        let ghost r = self.radius as int;
        let ghost total = disc_cells(cx, cy, r);
        proof {
            assert(r * r <= 46340 * 46340) by (nonlinear_arith)
                requires
                    -46340 <= r <= 46340,
            ;
            assert(r * r >= 0) by (nonlinear_arith);
        }
        let r2 = self.radius * self.radius;
        let mut dy: i32 = -self.radius;
        proof {
            assert(cells(self.points@) =~= Seq::<(int, int)>::empty());
            assert(cells(self.points@) + disc_rows(cx, cy, r, dy as int) =~= total);
        }
        while dy <= self.radius
            invariant
                self.same_settings(old(self)),
                cx == self.center_x,
                cy == self.center_y,
                r == self.radius,
                r2 == r * r,
                baseline_fits(cx, cy, r),
                -r <= dy,
                dy <= r + 1 || dy == -r,
                cells(self.points@) + disc_rows(cx, cy, r, dy as int) == total,
            decreases r - dy + 1,
        {
            let mut dx: i32 = -self.radius;
            proof {
                assert(disc_rows(cx, cy, r, dy as int) == disc_row(cx, cy, r, dy as int, dx as int)
                    + disc_rows(cx, cy, r, dy + 1));
                assert(cells(self.points@) + disc_row(cx, cy, r, dy as int, dx as int)
                    + disc_rows(cx, cy, r, dy + 1) =~= total);
            }
            while dx <= self.radius
                invariant
                    self.same_settings(old(self)),
                    cx == self.center_x,
                    cy == self.center_y,
                    r == self.radius,
                    r2 == r * r,
                    baseline_fits(cx, cy, r),
                    -r <= dy <= r,
                    -r <= dx <= r + 1,
                    cells(self.points@) + disc_row(cx, cy, r, dy as int, dx as int) + disc_rows(
                        cx,
                        cy,
                        r,
                        dy + 1,
                    ) == total,
                decreases r - dx + 1,
            {
                proof {
                    lemma_square_sum_bound(dx as int, dy as int, r);
                }
                let ghost before = cells(self.points@);
                let ghost old_pts = self.points@;
                let ghost rest = disc_row(cx, cy, r, dy as int, dx + 1) + disc_rows(
                    cx,
                    cy,
                    r,
                    dy + 1,
                );
                if dx * dx + dy * dy <= r2 {
                    let p = Point { x: self.center_x + dx, y: self.center_y + dy };
                    self.points.push(p);
                    proof {
                        lemma_cells_push(old_pts, p);
                        assert(cells(self.points@) + rest =~= before + disc_row(
                            cx,
                            cy,
                            r,
                            dy as int,
                            dx as int,
                        ) + disc_rows(cx, cy, r, dy + 1));
                    }
                } else {
                    proof {
                        assert(cells(self.points@) + rest =~= before + disc_row(
                            cx,
                            cy,
                            r,
                            dy as int,
                            dx as int,
                        ) + disc_rows(cx, cy, r, dy + 1));
                    }
                }
                dx += 1;
            }
            proof {
                assert(cells(self.points@) + disc_rows(cx, cy, r, dy + 1) =~= total);
            }
            dy += 1;
        }
        proof {
            assert(cells(self.points@) =~= total);
        }
    }

    /// The plotted points, in plotting order.
    pub fn points(&self) -> (ps: &[Point])
        ensures
            cells(ps@) == self.plotted(),
    {
        self.points.as_slice()
    }

    /// `other` has the same center, radius and overlay switch as `self`.
    pub open spec fn same_settings(&self, other: &Self) -> bool {
        &&& self.center_x == other.center_x
        &&& self.center_y == other.center_y
        &&& self.radius == other.radius
        &&& self.show_smooth_overlay == other.show_smooth_overlay
    }

    pub fn overlay_circle(&self) -> (o: Option<(i32, i32, i32)>)
        ensures
            o == (if self.show_smooth_overlay {
                Some((self.center_x, self.center_y, self.radius))
            } else {
                None
            }),
    {
        if self.show_smooth_overlay {
            Some((self.center_x, self.center_y, self.radius))
        } else {
            None
        }
    }

    pub fn cell_info(&self, cx: i32, cy: i32) -> (info: Option<String>)
        requires
            circle_decision_fits(
                self.center_x as int,
                self.center_y as int,
                self.radius as int,
                cx as int,
                cy as int,
            ),
        ensures
            info matches Some(t) && t@ == circle_cell_text(
                circle_decision(
                    self.center_x as int,
                    self.center_y as int,
                    self.radius as int,
                    cx as int,
                    cy as int,
                ),
                place_word(
                    circle_decision(
                        self.center_x as int,
                        self.center_y as int,
                        self.radius as int,
                        cx as int,
                        cy as int,
                    ),
                ),
            ),
    {
        let d = self.decision_parameter(cx, cy);
        let place = place_of(d as i64);
        Some(format_circle_cell(d, place))
    }

    /// Implicit circle equation: negative ⟹ inside, zero ⟹ on, positive ⟹ outside.
    pub fn decision_parameter(&self, x: i32, y: i32) -> (d: i32)
        requires
            circle_decision_fits(
                self.center_x as int,
                self.center_y as int,
                self.radius as int,
                x as int,
                y as int,
            ),
        ensures
            d == circle_decision(
                self.center_x as int,
                self.center_y as int,
                self.radius as int,
                x as int,
                y as int,
            ),
    {
        let dx = x - self.center_x;
        let dy = y - self.center_y;
        dx * dx + dy * dy - self.radius * self.radius
    }
}

} // verus!

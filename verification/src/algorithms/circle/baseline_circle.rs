//! The brute-force disc: every cell of the bounding square tested against
//! the implicit circle equation.
use vstd::prelude::*;

use crate::algorithms::cell_text::{circle_cell_text, place_word};
use crate::algorithms::circle::circle_base::{circle_decision, circle_decision_fits, CircleBase};
use crate::algorithms::disc::{baseline_fits, disc_cells, disc_row, disc_rows};
use crate::algorithms::{cells, lemma_cells_push, Point};

verus! {

pub struct BaselineCircle {
    pub base: CircleBase,
    pub points: Vec<Point>,
}

impl Default for BaselineCircle {
    /// A disc of radius 15 around the origin, already computed.
    fn default() -> (s: Self)
        ensures
            s.base.center_x == 0 && s.base.center_y == 0 && s.base.radius == 15,
            !s.base.show_smooth_overlay,
            s.plotted() == disc_cells(0, 0, 15),
    {
        let mut s = BaselineCircle { base: CircleBase::new(0, 0, 15), points: Vec::new() };
        s.compute();
        s
    }
}

/// `dx² + dy²` inside the bounding square of a radius accepted by the scan.
pub proof fn lemma_square_sum_bound(dx: int, dy: int, r: int)
    requires
        0 <= r <= 32767,
        -r <= dx <= r,
        -r <= dy <= r,
    ensures
        0 <= dx * dx <= r * r,
        0 <= dy * dy <= r * r,
        r * r <= 32767 * 32767,
{
    assert(0 <= dx * dx <= r * r) by (nonlinear_arith)
        requires
            -r <= dx <= r,
    ;
    assert(0 <= dy * dy <= r * r) by (nonlinear_arith)
        requires
            -r <= dy <= r,
    ;
    assert(r * r <= 32767 * 32767) by (nonlinear_arith)
        requires
            0 <= r <= 32767,
    ;
}

impl BaselineCircle {
    /// The cells plotted by the last `compute`.
    pub open spec fn plotted(&self) -> Seq<(int, int)> {
        cells(self.points@)
    }

    pub fn name(&self) -> (n: &'static str)
        ensures
            n@ == "Baseline Circle (Implicit Equation)"@,
    {
        "Baseline Circle (Implicit Equation)"
    }

    pub fn category(&self) -> (c: &'static str)
        ensures
            c@ == "circle"@,
    {
        "circle"
    }

    /// Scan the bounding square row by row and keep every cell whose
    /// implicit circle value is not positive.
    pub fn compute(&mut self)
        requires
            baseline_fits(
                old(self).base.center_x as int,
                old(self).base.center_y as int,
                old(self).base.radius as int,
            ),
        ensures
            final(self).base == old(self).base,
            final(self).plotted() == disc_cells(
                old(self).base.center_x as int,
                old(self).base.center_y as int,
                old(self).base.radius as int,
            ),
    {
        self.points.clear();
        let ghost cx = self.base.center_x as int;
        let ghost cy = self.base.center_y as int;
        let ghost r = self.base.radius as int;
        let ghost total = disc_cells(cx, cy, r);
        proof {
            assert(r * r <= 46340 * 46340) by (nonlinear_arith)
                requires
                    -46340 <= r <= 46340,
            ;
            assert(r * r >= 0) by (nonlinear_arith);
        }
        let r2 = self.base.radius * self.base.radius;
        let mut dy: i32 = -self.base.radius;
        proof {
            assert(cells(self.points@) =~= Seq::<(int, int)>::empty());
            assert(cells(self.points@) + disc_rows(cx, cy, r, dy as int) =~= total);
        }
        while dy <= self.base.radius
            invariant
                self.base == old(self).base,
                cx == self.base.center_x,
                cy == self.base.center_y,
                r == self.base.radius,
                r2 == r * r,
                baseline_fits(cx, cy, r),
                -r <= dy,
                dy <= r + 1 || dy == -r,
                cells(self.points@) + disc_rows(cx, cy, r, dy as int) == total,
            decreases r - dy + 1,
        {
            let mut dx: i32 = -self.base.radius;
            proof {
                assert(disc_rows(cx, cy, r, dy as int) == disc_row(cx, cy, r, dy as int, dx as int)
                    + disc_rows(cx, cy, r, dy + 1));
                assert(cells(self.points@) + disc_row(cx, cy, r, dy as int, dx as int)
                    + disc_rows(cx, cy, r, dy + 1) =~= total);
            }
            while dx <= self.base.radius
                invariant
                    self.base == old(self).base,
                    cx == self.base.center_x,
                    cy == self.base.center_y,
                    r == self.base.radius,
                    r2 == r * r,
                    baseline_fits(cx, cy, r),
                    -r <= dy <= r,
                    -r <= dx <= r + 1,
                    cells(self.points@) + disc_row(cx, cy, r, dy as int, dx as int) + disc_rows(
                        cx,
                        cy,
                        r,
                        dy + 1,
                    ) == total,
                decreases r - dx + 1,
            {
                proof {
                    lemma_square_sum_bound(dx as int, dy as int, r);
                }
                let ghost before = cells(self.points@);
                let ghost old_pts = self.points@;
                let ghost rest = disc_row(cx, cy, r, dy as int, dx + 1) + disc_rows(
                    cx,
                    cy,
                    r,
                    dy + 1,
                );
                if dx * dx + dy * dy <= r2 {
                    let p = Point { x: self.base.center_x + dx, y: self.base.center_y + dy };
                    self.points.push(p);
                    proof {
                        lemma_cells_push(old_pts, p);
                        assert(cells(self.points@) + rest =~= before + disc_row(
                            cx,
                            cy,
                            r,
                            dy as int,
                            dx as int,
                        ) + disc_rows(cx, cy, r, dy + 1));
                    }
                } else {
                    proof {
                        assert(cells(self.points@) + rest =~= before + disc_row(
                            cx,
                            cy,
                            r,
                            dy as int,
                            dx as int,
                        ) + disc_rows(cx, cy, r, dy + 1));
                    }
                }
                dx += 1;
            }
            proof {
                assert(cells(self.points@) + disc_rows(cx, cy, r, dy + 1) =~= total);
            }
            dy += 1;
        }
        proof {
            assert(cells(self.points@) =~= total);
        }
    }

    /// The plotted points, in plotting order.
    pub fn points(&self) -> (ps: &[Point])
        ensures
            cells(ps@) == self.plotted(),
    {
        self.points.as_slice()
    }

    pub fn overlay_circle(&self) -> (o: Option<(i32, i32, i32)>)
        ensures
            o == (if self.base.show_smooth_overlay {
                Some((self.base.center_x, self.base.center_y, self.base.radius))
            } else {
                None
            }),
    {
        self.base.overlay_circle_base()
    }

    pub fn cell_info(&self, cx: i32, cy: i32) -> (info: Option<String>)
        requires
            circle_decision_fits(
                self.base.center_x as int,
                self.base.center_y as int,
                self.base.radius as int,
                cx as int,
                cy as int,
            ),
        ensures
            info matches Some(t) && t@ == circle_cell_text(
                circle_decision(
                    self.base.center_x as int,
                    self.base.center_y as int,
                    self.base.radius as int,
                    cx as int,
                    cy as int,
                ),
                place_word(
                    circle_decision(
                        self.base.center_x as int,
                        self.base.center_y as int,
                        self.base.radius as int,
                        cx as int,
                        cy as int,
                    ),
                ),
            ),
    {
        self.base.cell_info_base(cx, cy)
    }
}

} // verus!

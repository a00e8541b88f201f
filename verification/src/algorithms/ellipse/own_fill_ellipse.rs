//! An ellipse filled with bridged step-then-plot outlines of shrinking
//! radii, closed by a row of cells along the horizontal axis.
use vstd::prelude::*;

use crate::algorithms::duplicates::is_repeated;
use crate::algorithms::ellipse::ellipse_base::EllipseBase;
use crate::algorithms::roland_walk::{
    lemma_wide_fits_shrink, roland_fill_fits, roland_outline, roland_pixels, roland_ring_labels,
    roland_rings, roland_walk, wide_ellipse_fits,
};
use crate::algorithms::{cells, fits_i32, Point};

verus! {

/// The cells `(cx + x, cy)` for `x = -f ..= f`, left to right: the row
/// through the center; none when `f < 0`.
pub open spec fn middle_row(cx: int, cy: int, f: int) -> Seq<(int, int)> {
    Seq::new(
        if f >= 0 {
            (2 * f + 1) as nat
        } else {
            0
        },
        |i: int| (cx + i - f, cy),
    )
}

/// The shrinking bridged fill fits (`roland_fill_fits`), and so does the
/// middle row `cx - f ..= cx + f` with `f = rx - (ry - 1)`.
pub open spec fn own_fill_fits(cx: int, cy: int, rx: int, ry: int) -> bool {
    let f = rx - (ry - 1);
    &&& roland_fill_fits(cx, cy, rx, ry)
    &&& f >= 0 ==> fits_i32(cx - f) && fits_i32(cx + f)
}

pub struct OwnFillEllipse {
    pub base: EllipseBase,
}

impl Default for OwnFillEllipse {
    /// Rings shrinking from radii 30 and 20 around the origin, already computed.
    fn default() -> (s: Self)
        ensures
            s.base.center_x == 0 && s.base.center_y == 0,
            s.base.radius_x == 30 && s.base.radius_y == 20,
            s.computed(),
    {
        let mut s = OwnFillEllipse { base: EllipseBase::new(0, 0, 30, 20) };
        assert((30 * 30) * (20 * 20) <= 0x1_0000_0000_0000) by (nonlinear_arith);
        s.compute();
        s
    }
}

impl OwnFillEllipse {
    /// The points are the bridged rings `0 ..= radius_y` around the current
    /// center followed by the row through the center,
    /// `middle_row(center_x, center_y, radius_x - (radius_y - 1))`, whose
    /// cells carry ring label `radius_y + 1`.
    pub open spec fn computed(&self) -> bool {
        let rx = self.base.radius_x as int;
        let ry = self.base.radius_y as int;
        let row = middle_row(self.base.center_x as int, self.base.center_y as int, rx - (ry - 1));
        &&& cells(self.base.points@) == roland_rings(
            self.base.center_x as int,
            self.base.center_y as int,
            rx,
            ry,
            true,
            ry + 1,
        ) + row
        &&& self.base.point_rings@ == roland_ring_labels(rx, ry, true, ry + 1) + Seq::new(
            row.len(),
            |i: int| (ry + 1) as i32,
        )
        &&& self.base.cache_valid()
    }

    pub fn name(&self) -> (n: &'static str)
        ensures
            n@ == "Own Fill Ellipse"@,
    {
        "Own Fill Ellipse"
    }

    pub fn category(&self) -> (c: &'static str)
        ensures
            c@ == "ellipse"@,
    {
        "ellipse"
    }

    /// For `i = 0 ..= radius_y`, plot the bridged step-then-plot outline
    /// with radii `radius_x - i` and `radius_y - i` when both are at least 1,
    /// labelling its points with ring `i + 1`; then the middle row through
    /// the center, the cells `(center_x + x, center_y)` for `x = -f ..= f`
    /// with `f = radius_x - (radius_y - 1)`.
    pub fn compute(&mut self)
        requires
            own_fill_fits(
                old(self).base.center_x as int,
                old(self).base.center_y as int,
                old(self).base.radius_x as int,
                old(self).base.radius_y as int,
            ),
        ensures
            final(self).base.same_settings(&old(self).base),
            final(self).computed(),
    {
        self.base.points.clear();
        self.base.point_rings.clear();
        self.base.invalidate_cache();
        let ghost cx = self.base.center_x as int;
        let ghost cy = self.base.center_y as int;
        let ghost grx = self.base.radius_x as int;
        let ghost gry = self.base.radius_y as int;
        let max_ry = self.base.radius_y;
        let mut i: i32 = 0;
        proof {
            assert(cells(self.base.points@) =~= roland_rings(cx, cy, grx, gry, true, 0));
            assert(self.base.point_rings@ =~= roland_ring_labels(grx, gry, true, 0));
        }
        while i <= max_ry
            invariant
                self.base.same_settings(&old(self).base),
                self.base.duplicate_cache is None,
                cx == self.base.center_x,
                cy == self.base.center_y,
                grx == self.base.radius_x,
                gry == self.base.radius_y,
                max_ry == gry,
                roland_fill_fits(cx, cy, grx, gry),
                0 <= i,
                i <= max_ry + 1 || max_ry < 0,
                max_ry < 0 ==> i == 0,
                cells(self.base.points@) == roland_rings(cx, cy, grx, gry, true, i as int),
                self.base.point_rings@ == roland_ring_labels(grx, gry, true, i as int),
            decreases max_ry - i + 1,
        {
            let rx = self.base.radius_x - i;
            let ry = self.base.radius_y - i;
            if rx >= 1 && ry >= 1 {
                proof {
                    lemma_wide_fits_shrink(cx, cy, grx, gry, rx as int, ry as int);
                }
                self.compute_ring(rx, ry, i + 1);
            }
            proof {
                assert(cells(self.base.points@) =~= roland_rings(cx, cy, grx, gry, true, i + 1));
                assert(self.base.point_rings@ =~= roland_ring_labels(grx, gry, true, i + 1));
            }
            i += 1;
        }
        proof {
            if max_ry < 0 {
                assert(roland_rings(cx, cy, grx, gry, true, gry + 1) == roland_rings(
                    cx,
                    cy,
                    grx,
                    gry,
                    true,
                    0,
                ));
                assert(roland_ring_labels(grx, gry, true, gry + 1) == roland_ring_labels(
                    grx,
                    gry,
                    true,
                    0,
                ));
            }
        }
        let ghost rings = cells(self.base.points@);
        let ghost labels = self.base.point_rings@;
        let ghost f = grx - (gry - 1);
        let final_rx = self.base.radius_x - (self.base.radius_y - 1);
        let center_x = self.base.center_x;
        let center_y = self.base.center_y;
        let mut x: i32 = -final_rx;
        proof {
            assert(cells(self.base.points@) =~= rings + middle_row(cx, cy, f).take(0));
            assert(self.base.point_rings@ =~= labels + Seq::new(0, |k: int| (gry + 1) as i32));
        }
        while x <= final_rx
            invariant
                self.base.same_settings(&old(self).base),
                self.base.duplicate_cache is None,
                max_ry == gry,
                -0x10_0000 <= grx <= 0x10_0000,
                -0x10_0000 <= gry <= 0x10_0000,
                final_rx == f,
                f == grx - (gry - 1),
                cx == center_x,
                cy == center_y,
                f >= 0 ==> fits_i32(cx - f) && fits_i32(cx + f),
                -f <= x,
                x <= f + 1 || f < 0,
                f < 0 ==> x == -f,
                cells(self.base.points@) == rings + middle_row(cx, cy, f).take(x + f),
                self.base.point_rings@ == labels + Seq::new(
                    (x + f) as nat,
                    |k: int| (gry + 1) as i32,
                ),
            decreases f - x + 1,
        {
            let ghost before = self.base.points@;
            self.base.points.push(Point { x: center_x + x, y: center_y });
            self.base.point_rings.push(max_ry + 1);
            proof {
                assert(middle_row(cx, cy, f).take(x + f + 1) =~= middle_row(cx, cy, f).take(
                    x + f,
                ).push((cx + x, cy)));
                assert(cells(self.base.points@) =~= cells(before).push((cx + x, cy)));
                assert(self.base.point_rings@ =~= labels + Seq::new(
                    (x + f + 1) as nat,
                    |k: int| (gry + 1) as i32,
                ));
            }
            x += 1;
        }
        proof {
            assert(middle_row(cx, cy, f).take(x + f) =~= middle_row(cx, cy, f));
        }
    }

    /// The plotted points, in plotting order.
    pub fn points(&self) -> (ps: &[Point])
        ensures
            ps@ == self.base.points@,
    {
        self.base.points.as_slice()
    }

    /// The ring colour of point `i` from `palette`, switched to `highlight`
    /// when duplicates are highlighted and the point's cell repeats; `None`
    /// when point `i` has no ring index.
    pub fn point_color_override<T: Copy>(&self, i: usize, palette: &[T], highlight: T) -> (c:
        Option<T>)
        requires
            palette@.len() > 0,
            self.base.cache_valid(),
            self.base.point_rings@.len() == self.base.points@.len(),
        ensures
            c == (if i >= self.base.point_rings@.len() {
                None
            } else if self.base.show_duplicates && is_repeated(cells(self.base.points@), i as int) {
                Some(highlight)
            } else {
                Some(
                    palette@[((self.base.point_rings@[i as int] as usize) as int) % (
                    palette@.len() as int)],
                )
            }),
    {
        let fallback = self.base.ring_color(i, palette);
        if fallback.is_none() {
            return None;
        }
        self.base.duplicate_color(i, fallback, highlight)
    }

    pub fn overlay_ellipse(&self) -> (o: Option<(i32, i32, i32, i32)>)
        ensures
            o == (if self.base.show_smooth_overlay {
                Some((self.base.center_x, self.base.center_y, self.base.radius_x, self.base.radius_y))
            } else {
                None
            }),
    {
        self.base.overlay_ellipse_base()
    }

    /// Plot the bridged step-then-plot outline with radii `rx`, `ry`,
    /// labelling each point with `ring`.
    fn compute_ring(&mut self, rx: i32, ry: i32, ring: i32)
        requires
            wide_ellipse_fits(
                old(self).base.center_x as int,
                old(self).base.center_y as int,
                rx as int,
                ry as int,
            ),
        ensures
            final(self).base.same_settings(&old(self).base),
            final(self).base.duplicate_cache == old(self).base.duplicate_cache,
            cells(final(self).base.points@) == cells(old(self).base.points@) + roland_outline(
                old(self).base.center_x as int,
                old(self).base.center_y as int,
                rx as int,
                ry as int,
                true,
            ),
            final(self).base.point_rings@ == old(self).base.point_rings@ + Seq::new(
                4 * roland_pixels(rx as int, ry as int, true).len(),
                |i: int| ring,
            ),
    {
        let q = roland_walk(rx, ry, true);
        self.base.plot_quadrant(&q, ring, Ghost(rx as int), Ghost(ry as int));
    }
}

} // verus!

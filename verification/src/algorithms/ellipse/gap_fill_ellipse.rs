//! An ellipse filled with the midpoint outlines of shrinking radii.
use vstd::prelude::*;

use crate::algorithms::duplicates::is_repeated;
use crate::algorithms::ellipse::ellipse_base::EllipseBase;
use crate::algorithms::ellipse_walk::{
    abs, ellipse_fits, ellipse_outline, lemma_ellipse_fits_shrink, lemma_mirror4_all_index,
    midpoint_quadrant, quadrant, ring_present, shrinking_labels, shrinking_outlines, wide_pairs,
};
use crate::algorithms::{cells, Point};

verus! {

pub struct GapFillEllipse {
    pub base: EllipseBase,
}

impl Default for GapFillEllipse {
    /// Rings shrinking from radii 30 and 20 around the origin, already computed.
    fn default() -> (s: Self)
        ensures
            s.base.center_x == 0 && s.base.center_y == 0,
            s.base.radius_x == 30 && s.base.radius_y == 20,
            s.computed(),
    {
        let mut s = GapFillEllipse { base: EllipseBase::new(0, 0, 30, 20) };
        s.compute();
        s
    }
}

impl GapFillEllipse {
    /// The points and ring labels are those of the rings `0 ..= radius_y`
    /// around the current center.
    pub open spec fn computed(&self) -> bool {
        let rx = self.base.radius_x as int;
        let ry = self.base.radius_y as int;
        &&& cells(self.base.points@) == shrinking_outlines(
            self.base.center_x as int,
            self.base.center_y as int,
            rx,
            ry,
            ry + 1,
        )
        &&& self.base.point_rings@ == shrinking_labels(rx, ry, ry + 1)
        &&& self.base.cache_valid()
    }

    pub fn name(&self) -> (n: &'static str)
        ensures
            n@ == "Gap-Fill Ellipse"@,
    {
        "Gap-Fill Ellipse"
    }

    pub fn category(&self) -> (c: &'static str)
        ensures
            c@ == "ellipse"@,
    {
        "ellipse"
    }

    /// For `i = 0 ..= radius_y`, plot the midpoint outline with radii
    /// `radius_x - i` and `radius_y - i` when both are at least 1, labelling
    /// its points with ring `i + 1`.
    pub fn compute(&mut self)
        requires
            ellipse_fits(
                old(self).base.center_x as int,
                old(self).base.center_y as int,
                old(self).base.radius_x as int,
                old(self).base.radius_y as int,
            ),
        ensures
            final(self).base.same_settings(&old(self).base),
            final(self).computed(),
    {
        self.base.points.clear();
        self.base.point_rings.clear();
        self.base.invalidate_cache();
        let ghost cx = self.base.center_x as int;
        let ghost cy = self.base.center_y as int;
        let ghost grx = self.base.radius_x as int;
        let ghost gry = self.base.radius_y as int;
        let max_ry = self.base.radius_y;
        let mut i: i32 = 0;
        proof {
            assert(cells(self.base.points@) =~= shrinking_outlines(cx, cy, grx, gry, 0));
            assert(self.base.point_rings@ =~= shrinking_labels(grx, gry, 0));
        }
        while i <= max_ry
            invariant
                self.base.same_settings(&old(self).base),
                self.base.duplicate_cache is None,
                cx == self.base.center_x,
                cy == self.base.center_y,
                grx == self.base.radius_x,
                gry == self.base.radius_y,
                max_ry == gry,
                ellipse_fits(cx, cy, grx, gry),
                0 <= i,
                i <= max_ry + 1 || max_ry < 0,
                max_ry < 0 ==> i == 0,
                cells(self.base.points@) == shrinking_outlines(cx, cy, grx, gry, i as int),
                self.base.point_rings@ == shrinking_labels(grx, gry, i as int),
            decreases max_ry - i + 1,
        {
            let rx = self.base.radius_x - i;
            let ry = self.base.radius_y - i;
            if rx >= 1 && ry >= 1 {
                proof {
                    lemma_ellipse_fits_shrink(cx, cy, grx, gry, rx as int, ry as int);
                }
                self.compute_ring(rx, ry, i + 1);
            }
            proof {
                assert(cells(self.base.points@) =~= shrinking_outlines(cx, cy, grx, gry, i + 1));
                assert(self.base.point_rings@ =~= shrinking_labels(grx, gry, i + 1));
            }
            i += 1;
        }
        proof {
            if max_ry < 0 {
                assert(shrinking_outlines(cx, cy, grx, gry, gry + 1) == shrinking_outlines(cx, cy, grx, gry, 0));
                assert(shrinking_labels(grx, gry, gry + 1) == shrinking_labels(grx, gry, 0));
            }
        }
    }

    /// The plotted points, in plotting order.
    pub fn points(&self) -> (ps: &[Point])
        ensures
            ps@ == self.base.points@,
    {
        self.base.points.as_slice()
    }

    /// The ring colour of point `i` from `palette`, switched to `highlight`
    /// when duplicates are highlighted and the point's cell repeats; `None`
    /// when point `i` has no ring index.
    pub fn point_color_override<T: Copy>(&self, i: usize, palette: &[T], highlight: T) -> (c:
        Option<T>)
        requires
            palette@.len() > 0,
            self.base.cache_valid(),
            self.base.point_rings@.len() == self.base.points@.len(),
        ensures
            c == (if i >= self.base.point_rings@.len() {
                None
            } else if self.base.show_duplicates && is_repeated(cells(self.base.points@), i as int) {
                Some(highlight)
            } else {
                Some(
                    palette@[((self.base.point_rings@[i as int] as usize) as int) % (
                    palette@.len() as int)],
                )
            }),
    {
        let fallback = self.base.ring_color(i, palette);
        if fallback.is_none() {
            return None;
        }
        self.base.duplicate_color(i, fallback, highlight)
    }

    pub fn overlay_ellipse(&self) -> (o: Option<(i32, i32, i32, i32)>)
        ensures
            o == (if self.base.show_smooth_overlay {
                Some((self.base.center_x, self.base.center_y, self.base.radius_x, self.base.radius_y))
            } else {
                None
            }),
    {
        self.base.overlay_ellipse_base()
    }

    /// Plot the midpoint outline with radii `rx`, `ry`, labelling each point
    /// with `ring`.
    fn compute_ring(&mut self, rx: i32, ry: i32, ring: i32)
        requires
            1 <= rx,
            1 <= ry,
            ellipse_fits(old(self).base.center_x as int, old(self).base.center_y as int, rx as int, ry as int),
        ensures
            final(self).base.same_settings(&old(self).base),
            final(self).base.duplicate_cache == old(self).base.duplicate_cache,
            cells(final(self).base.points@) == cells(old(self).base.points@) + ellipse_outline(
                old(self).base.center_x as int,
                old(self).base.center_y as int,
                rx as int,
                ry as int,
            ),
            final(self).base.point_rings@ == old(self).base.point_rings@ + Seq::new(
                4 * quadrant(rx as int, ry as int).len(),
                |i: int| ring,
            ),
    {
        let q = midpoint_quadrant(rx, ry);
        self.base.plot_quadrant(&q, ring, Ghost(rx as int), Ghost(ry as int));
    }
}

} // verus!

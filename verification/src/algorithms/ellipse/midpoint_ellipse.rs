//! The two-region midpoint ellipse outline.
use vstd::prelude::*;

use crate::algorithms::cell_text::{ellipse_cell_text, place_word};
use crate::algorithms::ellipse::ellipse_base::{ellipse_decision, ellipse_decision_fits, EllipseBase};
use crate::algorithms::ellipse_walk::{
    abs, ellipse_fits, ellipse_outline, midpoint_quadrant,
};
use crate::algorithms::{cells, Point};

verus! {

pub struct MidpointEllipse {
    pub base: EllipseBase,
}

impl Default for MidpointEllipse {
    /// An ellipse with radii 30 and 20 around the origin, already computed.
    fn default() -> (s: Self)
        ensures
            s.base.center_x == 0 && s.base.center_y == 0,
            s.base.radius_x == 30 && s.base.radius_y == 20,
            !s.base.show_smooth_overlay,
            cells(s.base.points@) == ellipse_outline(0, 0, 30, 20),
            s.base.point_rings@.len() == 0,
    {
        let mut s = MidpointEllipse { base: EllipseBase::new(0, 0, 30, 20) };
        s.compute();
        s
    }
}

impl MidpointEllipse {
    pub fn name(&self) -> (n: &'static str)
        ensures
            n@ == "Midpoint Ellipse"@,
    {
        "Midpoint Ellipse"
    }

    pub fn category(&self) -> (c: &'static str)
        ensures
            c@ == "ellipse"@,
    {
        "ellipse"
    }

    /// Recompute the outline: region 1 while the slope is above -1, then
    /// region 2 down to the x axis, each pixel mirrored into four quadrants.
    /// An outline has no rings, so its ring labels are left empty.
    pub fn compute(&mut self)
        requires
            ellipse_fits(
                old(self).base.center_x as int,
                old(self).base.center_y as int,
                old(self).base.radius_x as int,
                old(self).base.radius_y as int,
            ),
        ensures
            final(self).base.same_settings(&old(self).base),
            final(self).base.duplicate_cache is None,
            cells(final(self).base.points@) == ellipse_outline(
                old(self).base.center_x as int,
                old(self).base.center_y as int,
                old(self).base.radius_x as int,
                old(self).base.radius_y as int,
            ),
            final(self).base.point_rings@.len() == 0,
    {
        self.base.points.clear();
        self.base.invalidate_cache();
        let q = midpoint_quadrant(self.base.radius_x, self.base.radius_y);
        assert(cells(self.base.points@) =~= Seq::<(int, int)>::empty());
        self.base.plot_quadrant(
            &q,
            0,
            Ghost(abs(self.base.radius_x as int)),
            Ghost(abs(self.base.radius_y as int)),
        );
        // An outline has no rings: its ring labels stay empty.
        self.base.point_rings.clear();
        proof {
            assert(cells(self.base.points@) =~= ellipse_outline(
                self.base.center_x as int,
                self.base.center_y as int,
                self.base.radius_x as int,
                self.base.radius_y as int,
            ));
        }
    }

    /// The plotted points, in plotting order.
    pub fn points(&self) -> (ps: &[Point])
        ensures
            ps@ == self.base.points@,
    {
        self.base.points.as_slice()
    }

    pub fn overlay_ellipse(&self) -> (o: Option<(i32, i32, i32, i32)>)
        ensures
            o == (if self.base.show_smooth_overlay {
                Some((self.base.center_x, self.base.center_y, self.base.radius_x, self.base.radius_y))
            } else {
                None
            }),
    {
        self.base.overlay_ellipse_base()
    }

    pub fn cell_info(&self, cx: i32, cy: i32) -> (info: Option<String>)
        requires
            ellipse_decision_fits(
                self.base.center_x as int,
                self.base.center_y as int,
                self.base.radius_x as int,
                self.base.radius_y as int,
                cx as int,
                cy as int,
            ),
        ensures
            info matches Some(t) && t@ == ellipse_cell_text(
                ellipse_decision(
                    self.base.center_x as int,
                    self.base.center_y as int,
                    self.base.radius_x as int,
                    self.base.radius_y as int,
                    cx as int,
                    cy as int,
                ),
                place_word(
                    ellipse_decision(
                        self.base.center_x as int,
                        self.base.center_y as int,
                        self.base.radius_x as int,
                        self.base.radius_y as int,
                        cx as int,
                        cy as int,
                    ),
                ),
            ),
    {
        self.base.cell_info_base(cx, cy)
    }
}

} // verus!

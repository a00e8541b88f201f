//! An ellipse filled with bridged midpoint outlines of shrinking radii,
//! each ring coloured from a palette of twelve.
use vstd::prelude::*;

use crate::algorithms::ellipse_walk::{lemma_mirror4_all_push, mirror4, mirror4_all, wide_pairs};
use crate::algorithms::virtual_walk::{
    in_virtual_box, lemma_virtual_fits_shrink, virtual_ellipse_fits, virtual_fill_fits,
    virtual_outline, virtual_pixels, virtual_quadrant, virtual_ring_labels, virtual_rings,
};
use crate::algorithms::{cells, fits_i32, Point};

verus! {

pub struct VirtualFillEllipse {
    pub center_x: i32,
    pub center_y: i32,
    pub radius_x: i32,
    pub radius_y: i32,
    pub points: Vec<Point>,
    /// Which concentric ring each point belongs to (1 … min(radius_x, radius_y)).
    pub point_rings: Vec<i32>,
}

impl Default for VirtualFillEllipse {
    /// Rings shrinking from radii 30 and 20 around the origin, already computed.
    fn default() -> (s: Self)
        ensures
            s.center_x == 0 && s.center_y == 0,
            s.radius_x == 30 && s.radius_y == 20,
            s.computed(),
    {
        let mut s = VirtualFillEllipse {
            center_x: 0,
            center_y: 0,
            radius_x: 30,
            radius_y: 20,
            points: Vec::new(),
            point_rings: Vec::new(),
        };
        assert((31 * 31) * (21 * 21) <= 0x7fff_ffff) by (nonlinear_arith);
        s.compute();
        s
    }
}

impl VirtualFillEllipse {
    /// `other` has the same center and radii as `self`.
    pub open spec fn same_settings(&self, other: &Self) -> bool {
        &&& self.center_x == other.center_x
        &&& self.center_y == other.center_y
        &&& self.radius_x == other.radius_x
        &&& self.radius_y == other.radius_y
    }

    /// The points and ring labels are those of the rings `0 ..= radius_y`
    /// around the current center.
    pub open spec fn computed(&self) -> bool {
        let rx = self.radius_x as int;
        let ry = self.radius_y as int;
        &&& cells(self.points@) == virtual_rings(
            self.center_x as int,
            self.center_y as int,
            rx,
            ry,
            ry + 1,
        )
        &&& self.point_rings@ == virtual_ring_labels(rx, ry, ry + 1)
    }

    pub fn name(&self) -> (n: &'static str)
        ensures
            n@ == "Virtual Fill Ellipse"@,
    {
        "Virtual Fill Ellipse"
    }

    pub fn category(&self) -> (c: &'static str)
        ensures
            c@ == "ellipse"@,
    {
        "ellipse"
    }

    /// For `i = 0 ..= radius_y`, plot the bridged midpoint outline with radii
    /// `radius_x - i` and `radius_y - i` when both are at least 1, labelling
    /// its points with ring `i + 1`.
    pub fn compute(&mut self)
        requires
            virtual_fill_fits(
                old(self).center_x as int,
                old(self).center_y as int,
                old(self).radius_x as int,
                old(self).radius_y as int,
            ),
        ensures
            final(self).same_settings(old(self)),
            final(self).computed(),
    {
        self.points.clear();
        self.point_rings.clear();
        let ghost cx = self.center_x as int;
        let ghost cy = self.center_y as int;
        let ghost grx = self.radius_x as int;
        let ghost gry = self.radius_y as int;
        let max_ry = self.radius_y;
        let mut i: i32 = 0;
        proof {
            assert(cells(self.points@) =~= virtual_rings(cx, cy, grx, gry, 0));
            assert(self.point_rings@ =~= virtual_ring_labels(grx, gry, 0));
        }
        while i <= max_ry
            invariant
                self.same_settings(old(self)),
                cx == self.center_x,
                cy == self.center_y,
                grx == self.radius_x,
                gry == self.radius_y,
                max_ry == gry,
                virtual_fill_fits(cx, cy, grx, gry),
                0 <= i,
                i <= max_ry + 1 || max_ry < 0,
                max_ry < 0 ==> i == 0,
                cells(self.points@) == virtual_rings(cx, cy, grx, gry, i as int),
                self.point_rings@ == virtual_ring_labels(grx, gry, i as int),
            decreases max_ry - i + 1,
        {
            let rx = self.radius_x - i;
            let ry = self.radius_y - i;
            if rx >= 1 && ry >= 1 {
                proof {
                    lemma_virtual_fits_shrink(cx, cy, grx, gry, rx as int, ry as int);
                }
                self.compute_ring(rx, ry, i + 1);
            }
            proof {
                assert(cells(self.points@) =~= virtual_rings(cx, cy, grx, gry, i + 1));
                assert(self.point_rings@ =~= virtual_ring_labels(grx, gry, i + 1));
            }
            i += 1;
        }
        proof {
            if max_ry < 0 {
                assert(virtual_rings(cx, cy, grx, gry, gry + 1) == virtual_rings(
                    cx,
                    cy,
                    grx,
                    gry,
                    0,
                ));
                assert(virtual_ring_labels(grx, gry, gry + 1) == virtual_ring_labels(
                    grx,
                    gry,
                    0,
                ));
            }
        }
    }

    /// The plotted points, in plotting order.
    pub fn points(&self) -> (ps: &[Point])
        ensures
            ps@ == self.points@,
    {
        self.points.as_slice()
    }

    /// The ring colour of point `i`, `palette[ring % 12]`; `None` when point
    /// `i` has no ring label.
    pub fn point_color_override<T: Copy>(&self, i: usize, palette: &[T]) -> (c: Option<T>)
        requires
            palette@.len() >= 12,
        ensures
            c == (if i < self.point_rings@.len() {
                Some(palette@[((self.point_rings@[i as int] as usize) as int) % 12])
            } else {
                None
            }),
    {
        if i >= self.point_rings.len() {
            return None;
        }
        let r = self.point_rings[i] as usize;
        Some(palette[r % 12])
    }

    /// Plot the bridged midpoint outline with radii `rx`, `ry`, labelling
    /// each point with `ring`.
    fn compute_ring(&mut self, rx: i32, ry: i32, ring: i32)
        requires
            virtual_ellipse_fits(
                old(self).center_x as int,
                old(self).center_y as int,
                rx as int,
                ry as int,
            ),
        ensures
            final(self).same_settings(old(self)),
            cells(final(self).points@) == cells(old(self).points@) + virtual_outline(
                old(self).center_x as int,
                old(self).center_y as int,
                rx as int,
                ry as int,
            ),
            final(self).point_rings@ == old(self).point_rings@ + Seq::new(
                4 * virtual_pixels(rx as int, ry as int).len(),
                |i: int| ring,
            ),
    {
        let cx = self.center_x;
        let cy = self.center_y;
        let q = virtual_quadrant(rx, ry);
        let ghost p0 = cells(self.points@);
        let ghost rings0 = self.point_rings@;
        let n = q.len();
        let mut k: usize = 0;
        proof {
            assert(wide_pairs(q@).take(0) =~= Seq::<(int, int)>::empty());
            assert(cells(self.points@) =~= p0 + mirror4_all(
                cx as int,
                cy as int,
                wide_pairs(q@).take(0),
            ));
            assert(self.point_rings@ =~= rings0 + Seq::new(0, |i: int| ring));
        }
        while k < n
            invariant
                n == q@.len(),
                k <= n,
                self.same_settings(old(self)),
                cx == self.center_x,
                cy == self.center_y,
                wide_pairs(q@) == virtual_pixels(rx as int, ry as int),
                in_virtual_box(wide_pairs(q@), rx as int, ry as int),
                virtual_ellipse_fits(cx as int, cy as int, rx as int, ry as int),
                cells(self.points@) == p0 + mirror4_all(
                    cx as int,
                    cy as int,
                    wide_pairs(q@).take(k as int),
                ),
                self.point_rings@ == rings0 + Seq::new(4 * k as nat, |i: int| ring),
            decreases n - k,
        {
            let (x, y) = q[k];
            assert(wide_pairs(q@)[k as int] == (x as int, y as int));
            self.plot_symmetric(cx, cy, x as i32, y as i32, ring);
            proof {
                assert(wide_pairs(q@).take(k + 1) =~= wide_pairs(q@).take(k as int).push(
                    (x as int, y as int),
                ));
                lemma_mirror4_all_push(
                    cx as int,
                    cy as int,
                    wide_pairs(q@).take(k as int),
                    (x as int, y as int),
                );
                assert(self.point_rings@ =~= rings0 + Seq::new(
                    4 * (k + 1) as nat,
                    |i: int| ring,
                ));
            }
            k = k + 1;
        }
        proof {
            assert(wide_pairs(q@).take(n as int) =~= wide_pairs(q@));
        }
    }

    /// Push one point (and its ring index) in all four symmetric quadrants
    /// around `(cx, cy)`.
    fn plot_symmetric(&mut self, cx: i32, cy: i32, x: i32, y: i32, ring: i32)
        requires
            fits_i32(cx + x),
            fits_i32(cx - x),
            fits_i32(cy + y),
            fits_i32(cy - y),
        ensures
            final(self).same_settings(old(self)),
            cells(final(self).points@) == cells(old(self).points@) + mirror4(
                cx as int,
                cy as int,
                x as int,
                y as int,
            ),
            final(self).point_rings@ == old(self).point_rings@ + seq![ring, ring, ring, ring],
    {
        let ghost start = self.points@;
        self.points.push(Point { x: cx + x, y: cy + y });
        self.point_rings.push(ring);
        self.points.push(Point { x: cx - x, y: cy + y });
        self.point_rings.push(ring);
        self.points.push(Point { x: cx + x, y: cy - y });
        self.point_rings.push(ring);
        self.points.push(Point { x: cx - x, y: cy - y });
        self.point_rings.push(ring);
        assert(cells(self.points@) =~= cells(start) + mirror4(
            cx as int,
            cy as int,
            x as int,
            y as int,
        ));
        assert(self.point_rings@ =~= old(self).point_rings@ + seq![ring, ring, ring, ring]);
    }
}

} // verus!

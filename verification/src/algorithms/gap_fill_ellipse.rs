//! An ellipse filled with the midpoint outlines of shrinking radii, with its
//! own center, radii and duplicate highlighting.
use vstd::prelude::*;

use crate::algorithms::duplicates::{cache_agrees, is_repeated, repeated_cached};
use crate::algorithms::ellipse_walk::{
    ellipse_fits, ellipse_outline, in_quadrant_box, lemma_ellipse_fits_shrink,
    lemma_mirror4_all_push, midpoint_quadrant, mirror4, mirror4_all, quadrant, shrinking_labels,
    shrinking_outlines, wide_pairs,
};
use crate::algorithms::{cells, fits_i32, Point};

verus! {

pub struct GapFillEllipse {
    pub center_x: i32,
    pub center_y: i32,
    pub radius_x: i32,
    pub radius_y: i32,
    pub points: Vec<Point>,
    /// Which concentric ring each point belongs to (1 … min(radius_x, radius_y)).
    pub point_rings: Vec<i32>,
    pub show_duplicates: bool,
    /// For each point, whether its cell repeats; `None` until filled.
    pub duplicate_cache: Option<Vec<bool>>,
}

impl Default for GapFillEllipse {
    /// Rings shrinking from radii 30 and 20 around the origin, already computed.
    fn default() -> (s: Self)
        ensures
            s.center_x == 0 && s.center_y == 0,
            s.radius_x == 30 && s.radius_y == 20,
            !s.show_duplicates,
            s.computed(),
    {
        let mut s = GapFillEllipse {
            center_x: 0,
            center_y: 0,
            radius_x: 30,
            radius_y: 20,
            points: Vec::new(),
            point_rings: Vec::new(),
            show_duplicates: false,
            duplicate_cache: None,
        };
        s.compute();
        s
    }
}

impl GapFillEllipse {
    /// `other` has the same center, radii and duplicate switch as `self`.
    pub open spec fn same_settings(&self, other: &Self) -> bool {
        &&& self.center_x == other.center_x
        &&& self.center_y == other.center_y
        &&& self.radius_x == other.radius_x
        &&& self.radius_y == other.radius_y
        &&& self.show_duplicates == other.show_duplicates
    }

    /// The duplicate cache is empty or agrees with the points.
    pub open spec fn cache_valid(&self) -> bool {
        cache_agrees(self.duplicate_cache, self.points@)
    }

    /// The points and ring labels are those of the rings `0 ..= radius_y`
    /// around the current center.
    pub open spec fn computed(&self) -> bool {
        let rx = self.radius_x as int;
        let ry = self.radius_y as int;
        &&& cells(self.points@) == shrinking_outlines(
            self.center_x as int,
            self.center_y as int,
            rx,
            ry,
            ry + 1,
        )
        &&& self.point_rings@ == shrinking_labels(rx, ry, ry + 1)
        &&& self.cache_valid()
    }

    pub fn name(&self) -> (n: &'static str)
        ensures
            n@ == "Gap-Fill Ellipse"@,
    {
        "Gap-Fill Ellipse"
    }

    /// For `i = 0 ..= radius_y`, plot the midpoint outline with radii
    /// `radius_x - i` and `radius_y - i` when both are at least 1, labelling
    /// its points with ring `i + 1`.
    pub fn compute(&mut self)
        requires
            ellipse_fits(
                old(self).center_x as int,
                old(self).center_y as int,
                old(self).radius_x as int,
                old(self).radius_y as int,
            ),
        ensures
            final(self).same_settings(old(self)),
            final(self).computed(),
    {
        self.points.clear();
        self.point_rings.clear();
        self.duplicate_cache = None;
        let ghost cx = self.center_x as int;
        let ghost cy = self.center_y as int;
        let ghost grx = self.radius_x as int;
        let ghost gry = self.radius_y as int;
        let max_ry = self.radius_y;
        let mut i: i32 = 0;
        proof {
            assert(cells(self.points@) =~= shrinking_outlines(cx, cy, grx, gry, 0));
            assert(self.point_rings@ =~= shrinking_labels(grx, gry, 0));
        }
        while i <= max_ry
            invariant
                self.same_settings(old(self)),
                self.duplicate_cache is None,
                cx == self.center_x,
                cy == self.center_y,
                grx == self.radius_x,
                gry == self.radius_y,
                max_ry == gry,
                ellipse_fits(cx, cy, grx, gry),
                0 <= i,
                i <= max_ry + 1 || max_ry < 0,
                max_ry < 0 ==> i == 0,
                cells(self.points@) == shrinking_outlines(cx, cy, grx, gry, i as int),
                self.point_rings@ == shrinking_labels(grx, gry, i as int),
            decreases max_ry - i + 1,
        {
            let rx = self.radius_x - i;
            let ry = self.radius_y - i;
            if rx >= 1 && ry >= 1 {
                proof {
                    lemma_ellipse_fits_shrink(cx, cy, grx, gry, rx as int, ry as int);
                }
                self.compute_ring(rx, ry, i + 1);
            }
            proof {
                assert(cells(self.points@) =~= shrinking_outlines(cx, cy, grx, gry, i + 1));
                assert(self.point_rings@ =~= shrinking_labels(grx, gry, i + 1));
            }
            i += 1;
        }
        proof {
            if max_ry < 0 {
                assert(shrinking_outlines(cx, cy, grx, gry, gry + 1) == shrinking_outlines(
                    cx,
                    cy,
                    grx,
                    gry,
                    0,
                ));
                assert(shrinking_labels(grx, gry, gry + 1) == shrinking_labels(grx, gry, 0));
            }
        }
    }

    /// The plotted points, in plotting order.
    pub fn points(&self) -> (ps: &[Point])
        ensures
            ps@ == self.points@,
    {
        self.points.as_slice()
    }

    /// The ring colour of point `i`, `palette[ring % 3]`, switched to
    /// `highlight` when duplicates are shown and the point's cell repeats;
    /// `None` when point `i` has no ring label and is not highlighted.
    pub fn point_color_override<T: Copy>(&self, i: usize, palette: &[T], highlight: T) -> (c:
        Option<T>)
        requires
            palette@.len() >= 3,
            self.cache_valid(),
            self.show_duplicates ==> i < self.points@.len(),
        ensures
            c == (if self.show_duplicates && is_repeated(cells(self.points@), i as int) {
                Some(highlight)
            } else if i < self.point_rings@.len() {
                Some(palette@[((self.point_rings@[i as int] as usize) as int) % 3])
            } else {
                None
            }),
    {
        if !self.show_duplicates {
            if i >= self.point_rings.len() {
                return None;
            }
            let r = self.point_rings[i] as usize;
            return Some(palette[r % 3]);
        }
        if repeated_cached(&self.duplicate_cache, &self.points, i) {
            Some(highlight)
        } else {
            if i >= self.point_rings.len() {
                return None;
            }
            let r = self.point_rings[i] as usize;
            Some(palette[r % 3])
        }
    }

    /// Plot the midpoint outline with radii `rx`, `ry`, labelling each point
    /// with `ring`.
    fn compute_ring(&mut self, rx: i32, ry: i32, ring: i32)
        requires
            1 <= rx,
            1 <= ry,
            ellipse_fits(old(self).center_x as int, old(self).center_y as int, rx as int, ry as int),
        ensures
            final(self).same_settings(old(self)),
            final(self).duplicate_cache == old(self).duplicate_cache,
            cells(final(self).points@) == cells(old(self).points@) + ellipse_outline(
                old(self).center_x as int,
                old(self).center_y as int,
                rx as int,
                ry as int,
            ),
            final(self).point_rings@ == old(self).point_rings@ + Seq::new(
                4 * quadrant(rx as int, ry as int).len(),
                |i: int| ring,
            ),
    {
        let cx = self.center_x;
        let cy = self.center_y;
        let q = midpoint_quadrant(rx, ry);
        let ghost p0 = cells(self.points@);
        let ghost rings0 = self.point_rings@;
        let n = q.len();
        let mut k: usize = 0;
        proof {
            assert(wide_pairs(q@).take(0) =~= Seq::<(int, int)>::empty());
            assert(cells(self.points@) =~= p0 + mirror4_all(
                cx as int,
                cy as int,
                wide_pairs(q@).take(0),
            ));
            assert(self.point_rings@ =~= rings0 + Seq::new(0, |i: int| ring));
        }
        while k < n
            invariant
                n == q@.len(),
                k <= n,
                self.same_settings(old(self)),
                self.duplicate_cache == old(self).duplicate_cache,
                cx == self.center_x,
                cy == self.center_y,
                wide_pairs(q@) == quadrant(rx as int, ry as int),
                in_quadrant_box(wide_pairs(q@), rx as int, ry as int),
                ellipse_fits(cx as int, cy as int, rx as int, ry as int),
                1 <= rx && 1 <= ry,
                cells(self.points@) == p0 + mirror4_all(
                    cx as int,
                    cy as int,
                    wide_pairs(q@).take(k as int),
                ),
                self.point_rings@ == rings0 + Seq::new(4 * k as nat, |i: int| ring),
            decreases n - k,
        {
            let (x, y) = q[k];
            assert(wide_pairs(q@)[k as int] == (x as int, y as int));
            self.plot_symmetric(cx, cy, x as i32, y as i32, ring);
            proof {
                assert(wide_pairs(q@).take(k + 1) =~= wide_pairs(q@).take(k as int).push(
                    (x as int, y as int),
                ));
                lemma_mirror4_all_push(
                    cx as int,
                    cy as int,
                    wide_pairs(q@).take(k as int),
                    (x as int, y as int),
                );
                assert(self.point_rings@ =~= rings0 + Seq::new(
                    4 * (k + 1) as nat,
                    |i: int| ring,
                ));
            }
            k = k + 1;
        }
        proof {
            assert(wide_pairs(q@).take(n as int) =~= wide_pairs(q@));
            assert(cells(self.points@) =~= p0 + ellipse_outline(
                cx as int,
                cy as int,
                rx as int,
                ry as int,
            ));
        }
    }

    /// Push one point (and its ring index) in all four symmetric quadrants
    /// around `(cx, cy)`.
    fn plot_symmetric(&mut self, cx: i32, cy: i32, x: i32, y: i32, ring: i32)
        requires
            fits_i32(cx + x),
            fits_i32(cx - x),
            fits_i32(cy + y),
            fits_i32(cy - y),
        ensures
            final(self).same_settings(old(self)),
            final(self).duplicate_cache == old(self).duplicate_cache,
            cells(final(self).points@) == cells(old(self).points@) + mirror4(
                cx as int,
                cy as int,
                x as int,
                y as int,
            ),
            final(self).point_rings@ == old(self).point_rings@ + seq![ring, ring, ring, ring],
    {
        let ghost start = self.points@;
        self.points.push(Point { x: cx + x, y: cy + y });
        self.point_rings.push(ring);
        self.points.push(Point { x: cx - x, y: cy + y });
        self.point_rings.push(ring);
        self.points.push(Point { x: cx + x, y: cy - y });
        self.point_rings.push(ring);
        self.points.push(Point { x: cx - x, y: cy - y });
        self.point_rings.push(ring);
        assert(cells(self.points@) =~= cells(start) + mirror4(
            cx as int,
            cy as int,
            x as int,
            y as int,
        ));
        assert(self.point_rings@ =~= old(self).point_rings@ + seq![ring, ring, ring, ring]);
    }
}

} // verus!

//! A disc filled ring by ring with Sitaraman's gap-filling midpoint walk.
use vstd::prelude::*;

use crate::algorithms::circle::circle_base::CircleBase;
use crate::algorithms::circle_walk::{
    circle_fits, fill_extra, fill_ring, fill_ring_cells, fill_walk, lemma_fill_advance,
    lemma_fill_done, lemma_mirror8_all_index, lemma_walk_start, lemma_walk_step, mirror8,
    mirror8_all, push_octants, stacked, stacked_labels, stacked_starts, walk_inv,
};
use crate::algorithms::duplicates::is_repeated;
use crate::algorithms::{cells, push_repeated, Point};

verus! {

pub struct SitaramanFillCircle {
    pub base: CircleBase,
    /// Which concentric ring each point belongs to (1 … radius).
    pub point_radii: Vec<i32>,
    /// Starting index of each ring in the points array (0-based).
    pub ring_start_indices: Vec<usize>,
}

impl Default for SitaramanFillCircle {
    /// Rings of radius 1 … 15 around the origin, already computed.
    fn default() -> (s: Self)
        ensures
            s.base.center_x == 0 && s.base.center_y == 0 && s.base.radius == 15,
            s.computed(),
    {
        let mut s = SitaramanFillCircle {
            base: CircleBase::new(0, 0, 15),
            point_radii: Vec::new(),
            ring_start_indices: Vec::new(),
        };
        s.compute();
        s
    }
}

impl SitaramanFillCircle {
    /// The cells plotted by the last `compute`.
    pub open spec fn plotted(&self) -> Seq<(int, int)> {
        cells(self.base.points@)
    }

    /// The points, ring labels and ring starts are those of the rings
    /// `1 ..= radius` around the current center.
    pub open spec fn computed(&self) -> bool {
        let n = self.base.radius as int;
        &&& self.plotted() == stacked(
            fill_ring(self.base.center_x as int, self.base.center_y as int),
            n,
        )
        &&& self.point_radii@ == stacked_labels(
            fill_ring(self.base.center_x as int, self.base.center_y as int),
            n,
        )
        &&& self.ring_start_indices@ == stacked_starts(
            fill_ring(self.base.center_x as int, self.base.center_y as int),
            n,
        )
        &&& self.base.cache_valid()
    }

    pub fn name(&self) -> (n: &'static str)
        ensures
            n@ == "Sitaraman Fill Circle"@,
    {
        "Sitaraman Fill Circle"
    }

    pub fn category(&self) -> (c: &'static str)
        ensures
            c@ == "circle"@,
    {
        "circle"
    }

    /// Plot the gap-filling ring of every radius `1 ..= radius`, recording for
    /// each point its ring and for each ring where it starts.
    pub fn compute(&mut self)
        requires
            circle_fits(
                old(self).base.center_x as int,
                old(self).base.center_y as int,
                old(self).base.radius as int,
            ),
        ensures
            final(self).base.same_settings(&old(self).base),
            final(self).computed(),
    {
        self.base.points.clear();
        self.base.invalidate_cache();
        self.point_radii.clear();
        self.ring_start_indices.clear();
        let ghost cx = self.base.center_x as int;
        let ghost cy = self.base.center_y as int;
        let ghost ring = fill_ring(cx, cy);
        let n = self.base.radius;
        let mut r: i32 = 1;
        proof {
            assert(cells(self.base.points@) =~= stacked(ring, 0));
            assert(self.point_radii@ =~= stacked_labels(ring, 0));
            assert(self.ring_start_indices@ =~= stacked_starts(ring, 0));
        }
        while r <= n
            invariant
                self.base.same_settings(&old(self).base),
                self.base.cache_empty(),
                cx == self.base.center_x,
                cy == self.base.center_y,
                ring == fill_ring(cx, cy),
                n == self.base.radius,
                circle_fits(cx, cy, n as int),
                1 <= r,
                r <= n + 1 || n < 1,
                n < 1 ==> r == 1,
                cells(self.base.points@) == stacked(ring, r - 1),
                self.point_radii@ == stacked_labels(ring, r - 1),
                self.ring_start_indices@ == stacked_starts(ring, r - 1),
            decreases n - r + 1,
        {
            let start = self.base.points.len();
            self.ring_start_indices.push(start);
            proof {
                assert(self.ring_start_indices@ =~= stacked_starts(ring, r as int));
            }
            self.compute_ring(r);
            proof {
                lemma_mirror8_all_index(cx, cy, fill_walk(r as int, 0, r as int, 1 - r));
                assert(cells(self.base.points@) =~= stacked(ring, r as int));
                assert(self.point_radii@ =~= stacked_labels(ring, r as int));
            }
            r += 1;
        }
        proof {
            if n < 1 {
                assert(stacked(ring, n as int) == stacked(ring, 0));
                assert(stacked_labels(ring, n as int) == stacked_labels(ring, 0));
                assert(stacked_starts(ring, n as int) =~= stacked_starts(ring, 0));
            }
        }
    }

    /// The plotted points, in plotting order.
    pub fn points(&self) -> (ps: &[Point])
        ensures
            cells(ps@) == self.plotted(),
    {
        self.base.points.as_slice()
    }

    /// The ring colour of point `i` from `palette`, switched to `highlight`
    /// when duplicates are highlighted and the point's cell repeats; `None`
    /// when `i` has no ring label.
    pub fn point_color_override<T: Copy>(&self, i: usize, palette: &[T], highlight: T) -> (c:
        Option<T>)
        requires
            palette@.len() > 0,
            self.base.cache_valid(),
            self.point_radii@.len() == self.base.points@.len(),
        ensures
            c == (if i >= self.point_radii@.len() {
                None
            } else if self.base.show_duplicates && is_repeated(self.plotted(), i as int) {
                Some(highlight)
            } else {
                Some(palette@[((self.point_radii@[i as int] as usize) as int) % (palette@.len() as int)])
            }),
    {
        if i >= self.point_radii.len() {
            return None;
        }
        let r = self.point_radii[i] as usize;
        let ring_color = Some(palette[r % palette.len()]);
        self.base.duplicate_color(i, ring_color, highlight)
    }

    pub fn overlay_circle(&self) -> (o: Option<(i32, i32, i32)>)
        ensures
            o == (if self.base.show_smooth_overlay {
                Some((self.base.center_x, self.base.center_y, self.base.radius))
            } else {
                None
            }),
    {
        self.base.overlay_circle_base()
    }

    /// Plot the gap-filling ring of radius `r`, labelling each point with `r`.
    fn compute_ring(&mut self, r: i32)
        requires
            1 <= r,
            circle_fits(old(self).base.center_x as int, old(self).base.center_y as int, r as int),
        ensures
            final(self).base.same_settings(&old(self).base),
            final(self).base.duplicate_cache == old(self).base.duplicate_cache,
            final(self).ring_start_indices@ == old(self).ring_start_indices@,
            cells(final(self).base.points@) == cells(old(self).base.points@) + fill_ring_cells(
                old(self).base.center_x as int,
                old(self).base.center_y as int,
                r as int,
            ),
            final(self).point_radii@ == old(self).point_radii@ + Seq::new(
                (8 * fill_walk(r as int, 0, r as int, 1 - r).len()) as nat,
                |i: int| r,
            ),
    {
        let ghost cx = self.base.center_x as int;
        let ghost cy = self.base.center_y as int;
        let ghost done0 = cells(self.base.points@);
        let ghost labels0 = self.point_radii@;
        let ghost total = fill_walk(r as int, 0, r as int, 1 - r).len();
        let mut x: i32 = 0;
        let mut y: i32 = r;
        let mut d: i32 = 1 - r;
        proof {
            lemma_walk_start(r as int);
            assert(self.point_radii@ =~= labels0 + Seq::new(
                (8 * total - 8 * fill_walk(r as int, x as int, y as int, d as int).len()) as nat,
                |i: int| r,
            ));
        }
        while x <= y
            invariant
                self.base.same_settings(&old(self).base),
                self.base.duplicate_cache == old(self).base.duplicate_cache,
                self.ring_start_indices@ == old(self).ring_start_indices@,
                cx == self.base.center_x,
                cy == self.base.center_y,
                1 <= r,
                circle_fits(cx, cy, r as int),
                walk_inv(r as int, x as int, y as int, d as int),
                total == fill_walk(r as int, 0, r as int, 1 - r).len(),
                cells(self.base.points@) + mirror8_all(
                    cx,
                    cy,
                    fill_walk(r as int, x as int, y as int, d as int),
                ) == done0 + fill_ring_cells(cx, cy, r as int),
                fill_walk(r as int, x as int, y as int, d as int).len() <= total,
                self.point_radii@ == labels0 + Seq::new(
                    (8 * total - 8 * fill_walk(r as int, x as int, y as int, d as int).len()) as nat,
                    |i: int| r,
                ),
            decreases y - x + 2,
        {
            proof {
                lemma_walk_step(r as int, x as int, y as int, d as int);
                lemma_fill_advance(
                    cx,
                    cy,
                    r as int,
                    x as int,
                    y as int,
                    d as int,
                    cells(self.base.points@),
                    done0 + fill_ring_cells(cx, cy, r as int),
                );
            }
            let ghost x0 = x as int;
            let ghost y0 = y as int;
            let ghost d0 = d as int;
            self.plot_octants(x, y, r);
            if d < 0 {
                d += 2 * x + 3;
            } else {
                // Check fill decision parameter d' = d + 2y − 2r − 1
                if d + 2 * y - 2 * r - 1 < 0 {
                    self.plot_octants(x + 1, y, r);
                }
                d += 2 * (x - y) + 5;
                y -= 1;
            }
            x += 1;
            proof {
                assert(cells(self.base.points@) + mirror8_all(
                    cx,
                    cy,
                    fill_walk(r as int, x as int, y as int, d as int),
                ) == done0 + fill_ring_cells(cx, cy, r as int));
                assert(self.point_radii@ =~= labels0 + Seq::new(
                    (8 * total - 8 * fill_walk(r as int, x as int, y as int, d as int).len()) as nat,
                    |i: int| r,
                ));
            }
        }
        proof {
            lemma_fill_done(cx, cy, r as int, x as int, y as int, d as int);
            assert(cells(self.base.points@) =~= done0 + fill_ring_cells(cx, cy, r as int));
        }
    }

    /// Plot the eight images of `(x, y)` and label them with ring `r`.
    fn plot_octants(&mut self, x: i32, y: i32, r: i32)
        requires
            0 <= x <= r,
            0 <= y <= r,
            circle_fits(old(self).base.center_x as int, old(self).base.center_y as int, r as int),
        ensures
            final(self).base.same_settings(&old(self).base),
            final(self).base.duplicate_cache == old(self).base.duplicate_cache,
            final(self).ring_start_indices@ == old(self).ring_start_indices@,
            cells(final(self).base.points@) == cells(old(self).base.points@) + mirror8(
                old(self).base.center_x as int,
                old(self).base.center_y as int,
                x as int,
                y as int,
            ),
            final(self).point_radii@ == old(self).point_radii@ + Seq::new(8, |i: int| r),
    {
        let cx = self.base.center_x;
        let cy = self.base.center_y;
        push_octants(&mut self.base.points, cx, cy, x, y);
        push_repeated(&mut self.point_radii, r, 8);
    }
}

} // verus!

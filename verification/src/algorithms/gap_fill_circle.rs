//! A disc filled with the midpoint outlines of every radius `1 ..= radius`,
//! with its own center, radius and duplicate highlighting.
use vstd::prelude::*;

use crate::algorithms::cell_text::{format_step_ring, step_ring_text};
use crate::algorithms::circle_walk::{
    circle_fits, circle_octant, circle_outline, lemma_mirror8_all_index,
    lemma_walk_advance, lemma_walk_done, lemma_walk_start, lemma_walk_step, mirror8, mirror8_all,
    octant_walk, outline_ring, push_octants, ring_outlines, stacked, stacked_labels,
    stacked_starts, walk_inv,
};
use crate::algorithms::duplicates::{cache_agrees, is_repeated, repeated_cached};
use crate::algorithms::ring_steps::{
    lemma_stacked_starts_cover, locate_step, starts_cover, step_and_ring,
};
use crate::algorithms::{cells, push_repeated, Point};

verus! {

pub struct GapFillCircle {
    pub center_x: i32,
    pub center_y: i32,
    pub radius: i32,
    pub points: Vec<Point>,
    /// Which concentric ring each point belongs to (1 … radius).
    pub point_radii: Vec<i32>,
    /// Starting index of each ring in the points array (0-based).
    pub ring_start_indices: Vec<usize>,
    pub show_duplicates: bool,
    /// For each point, whether its cell repeats; `None` until filled.
    pub duplicate_cache: Option<Vec<bool>>,
}

impl Default for GapFillCircle {
    /// Rings of radius 1 … 15 around the origin, already computed.
    fn default() -> (s: Self)
        ensures
            s.center_x == 0 && s.center_y == 0 && s.radius == 15,
            s.computed(),
    {
        let mut s = GapFillCircle {
            center_x: 0,
            center_y: 0,
            radius: 15,
            points: Vec::new(),
            point_radii: Vec::new(),
            ring_start_indices: Vec::new(),
            show_duplicates: false,
            duplicate_cache: None,
        };
        s.compute();
        s
    }
}

impl GapFillCircle {
    /// `other` has the same center, radius and duplicate switch as `self`.
    pub open spec fn same_settings(&self, other: &Self) -> bool {
        &&& self.center_x == other.center_x
        &&& self.center_y == other.center_y
        &&& self.radius == other.radius
        &&& self.show_duplicates == other.show_duplicates
    }

    /// The duplicate cache is empty or agrees with the points.
    pub open spec fn cache_valid(&self) -> bool {
        cache_agrees(self.duplicate_cache, self.points@)
    }

    /// The cells plotted by the last `compute`.
    pub open spec fn plotted(&self) -> Seq<(int, int)> {
        cells(self.points@)
    }

    /// The points, ring labels and ring starts are those of the rings
    /// `1 ..= radius` around the current center.
    pub open spec fn computed(&self) -> bool {
        let n = self.radius as int;
        &&& self.plotted() == ring_outlines(
            self.center_x as int,
            self.center_y as int,
            n,
        )
        &&& self.point_radii@ == stacked_labels(
            outline_ring(self.center_x as int, self.center_y as int),
            n,
        )
        &&& self.ring_start_indices@ == stacked_starts(
            outline_ring(self.center_x as int, self.center_y as int),
            n,
        )
        &&& starts_cover(self.points@.len() as int, self.ring_start_indices@)
        &&& self.cache_valid()
    }

    pub fn name(&self) -> (n: &'static str)
        ensures
            n@ == "Gap-Fill Circle"@,
    {
        "Gap-Fill Circle"
    }

    /// Plot the midpoint outline of every radius `1 ..= radius`, recording for
    /// each point its ring and for each ring where it starts.
    pub fn compute(&mut self)
        requires
            circle_fits(
                old(self).center_x as int,
                old(self).center_y as int,
                old(self).radius as int,
            ),
        ensures
            final(self).same_settings(old(self)),
            final(self).computed(),
    {
        self.points.clear();
        self.duplicate_cache = None;
        self.point_radii.clear();
        self.ring_start_indices.clear();
        let ghost cx = self.center_x as int;
        let ghost cy = self.center_y as int;
        let ghost ring = outline_ring(cx, cy);
        let n = self.radius;
        let mut r: i32 = 1;
        proof {
            assert(cells(self.points@) =~= stacked(ring, 0));
            assert(self.point_radii@ =~= stacked_labels(ring, 0));
            assert(self.ring_start_indices@ =~= stacked_starts(ring, 0));
        }
        while r <= n
            invariant
                self.same_settings(old(self)),
                self.duplicate_cache is None,
                cx == self.center_x,
                cy == self.center_y,
                ring == outline_ring(cx, cy),
                n == self.radius,
                circle_fits(cx, cy, n as int),
                1 <= r,
                r <= n + 1 || n < 1,
                n < 1 ==> r == 1,
                cells(self.points@) == stacked(ring, r - 1),
                self.point_radii@ == stacked_labels(ring, r - 1),
                self.ring_start_indices@ == stacked_starts(ring, r - 1),
            decreases n - r + 1,
        {
            let start = self.points.len();
            self.ring_start_indices.push(start);
            proof {
                assert(self.ring_start_indices@ =~= stacked_starts(ring, r as int));
            }
            self.compute_ring(r);
            proof {
                lemma_mirror8_all_index(cx, cy, circle_octant(r as int));
                assert(cells(self.points@) =~= stacked(ring, r as int));
                assert(self.point_radii@ =~= stacked_labels(ring, r as int));
            }
            r += 1;
        }
        proof {
            if n < 1 {
                assert(stacked(ring, n as int) == stacked(ring, 0));
                assert(stacked_labels(ring, n as int) == stacked_labels(ring, 0));
                assert(stacked_starts(ring, n as int) =~= stacked_starts(ring, 0));
            }
            lemma_stacked_starts_cover(ring, n as int);
        }
    }

    /// The plotted points, in plotting order.
    pub fn points(&self) -> (ps: &[Point])
        ensures
            cells(ps@) == self.plotted(),
    {
        self.points.as_slice()
    }

    /// The ring colour of point `i`, `palette[ring % 3]`, switched to
    /// `highlight` when duplicates are shown and the point's cell repeats;
    /// `None` when point `i` has no ring label and is not highlighted.
    pub fn point_color_override<T: Copy>(&self, i: usize, palette: &[T], highlight: T) -> (c:
        Option<T>)
        requires
            palette@.len() >= 3,
            self.cache_valid(),
            self.show_duplicates ==> i < self.points@.len(),
        ensures
            c == (if self.show_duplicates && is_repeated(self.plotted(), i as int) {
                Some(highlight)
            } else if i < self.point_radii@.len() {
                Some(palette@[((self.point_radii@[i as int] as usize) as int) % 3])
            } else {
                None
            }),
    {
        if !self.show_duplicates {
            if i >= self.point_radii.len() {
                return None;
            }
            let r = self.point_radii[i] as usize;
            return Some(palette[r % 3]);
        }
        if repeated_cached(&self.duplicate_cache, &self.points, i) {
            Some(highlight)
        } else {
            if i >= self.point_radii.len() {
                return None;
            }
            let r = self.point_radii[i] as usize;
            Some(palette[r % 3])
        }
    }

    /// "Step s (ring k)" for the first point at `(cx, cy)`: its step within its
    /// ring and the ring's number; `None` when no point is there.
    pub fn cell_info(&self, cx: i32, cy: i32) -> (info: Option<String>)
        requires
            starts_cover(self.points@.len() as int, self.ring_start_indices@),
        ensures
            match step_and_ring(self.plotted(), self.ring_start_indices@, (cx as int, cy as int)) {
                None => info is None,
                Some((step, ring)) => info matches Some(t) && t@ == step_ring_text(step, ring),
            },
    {
        match locate_step(&self.points, &self.ring_start_indices, cx, cy) {
            Some((step, ring)) => Some(format_step_ring(step, ring)),
            None => None,
        }
    }

    /// The analytic overlay `(cx, cy, radius)`, always drawn.
    pub fn overlay_circle(&self) -> (o: Option<(i32, i32, i32)>)
        ensures
            o == Some((self.center_x, self.center_y, self.radius)),
    {
        Some((self.center_x, self.center_y, self.radius))
    }

    /// Plot the midpoint outline of radius `r`, labelling each point with `r`.
    fn compute_ring(&mut self, r: i32)
        requires
            1 <= r,
            circle_fits(old(self).center_x as int, old(self).center_y as int, r as int),
        ensures
            final(self).same_settings(old(self)),
            final(self).duplicate_cache == old(self).duplicate_cache,
            final(self).ring_start_indices@ == old(self).ring_start_indices@,
            cells(final(self).points@) == cells(old(self).points@) + circle_outline(
                old(self).center_x as int,
                old(self).center_y as int,
                r as int,
            ),
            final(self).point_radii@ == old(self).point_radii@ + Seq::new(
                (8 * circle_octant(r as int).len()) as nat,
                |i: int| r,
            ),
    {
        let ghost cx = self.center_x as int;
        let ghost cy = self.center_y as int;
        let ghost done0 = cells(self.points@);
        let ghost labels0 = self.point_radii@;
        let mut x: i32 = 0;
        let mut y: i32 = r;
        let mut d: i32 = 1 - r;
        proof {
            lemma_walk_start(r as int);
            assert(done0 + mirror8_all(cx, cy, octant_walk(0, r as int, 1 - r))
                =~= done0 + circle_outline(cx, cy, r as int));
            lemma_mirror8_all_index(cx, cy, octant_walk(x as int, y as int, d as int));
            assert(self.point_radii@ =~= labels0 + Seq::new(
                (8 * circle_octant(r as int).len() - 8 * octant_walk(
                    x as int,
                    y as int,
                    d as int,
                ).len()) as nat,
                |i: int| r,
            ));
        }
        while x <= y
            invariant
                self.same_settings(old(self)),
                self.duplicate_cache == old(self).duplicate_cache,
                self.ring_start_indices@ == old(self).ring_start_indices@,
                cx == self.center_x,
                cy == self.center_y,
                1 <= r,
                circle_fits(cx, cy, r as int),
                walk_inv(r as int, x as int, y as int, d as int),
                cells(self.points@) + mirror8_all(
                    cx,
                    cy,
                    octant_walk(x as int, y as int, d as int),
                ) == done0 + circle_outline(cx, cy, r as int),
                8 * octant_walk(x as int, y as int, d as int).len() <= 8 * circle_octant(
                    r as int,
                ).len(),
                self.point_radii@ == labels0 + Seq::new(
                    (8 * circle_octant(r as int).len() - 8 * octant_walk(
                        x as int,
                        y as int,
                        d as int,
                    ).len()) as nat,
                    |i: int| r,
                ),
            decreases y - x + 2,
        {
            proof {
                lemma_walk_step(r as int, x as int, y as int, d as int);
                lemma_walk_advance(
                    cx,
                    cy,
                    x as int,
                    y as int,
                    d as int,
                    cells(self.points@),
                    done0 + circle_outline(cx, cy, r as int),
                );
            }
            let ghost rest_before = octant_walk(x as int, y as int, d as int).len();
            self.plot_octants(x, y, r);
            if d < 0 {
                d += 2 * x + 3;
            } else {
                d += 2 * (x - y) + 5;
                y -= 1;
            }
            x += 1;
            proof {
                assert(rest_before == 1 + octant_walk(x as int, y as int, d as int).len());
                assert(self.point_radii@ =~= labels0 + Seq::new(
                    (8 * circle_octant(r as int).len() - 8 * octant_walk(
                        x as int,
                        y as int,
                        d as int,
                    ).len()) as nat,
                    |i: int| r,
                ));
            }
        }
        proof {
            lemma_walk_done(cx, cy, x as int, y as int, d as int);
            assert(cells(self.points@) =~= done0 + circle_outline(cx, cy, r as int));
        }
    }

    /// Plot the eight images of `(x, y)` and label them with ring `r`.
    fn plot_octants(&mut self, x: i32, y: i32, r: i32)
        requires
            0 <= x <= y,
            circle_fits(old(self).center_x as int, old(self).center_y as int, y as int),
        ensures
            final(self).same_settings(old(self)),
            final(self).duplicate_cache == old(self).duplicate_cache,
            final(self).ring_start_indices@ == old(self).ring_start_indices@,
            cells(final(self).points@) == cells(old(self).points@) + mirror8(
                old(self).center_x as int,
                old(self).center_y as int,
                x as int,
                y as int,
            ),
            final(self).point_radii@ == old(self).point_radii@ + Seq::new(8, |i: int| r),
    {
        let cx = self.center_x;
        let cy = self.center_y;
        push_octants(&mut self.points, cx, cy, x, y);
        push_repeated(&mut self.point_radii, r, 8);
    }
}

} // verus!

//! The midpoint circle computed in two phases: the sequential first-octant
//! walk, then the eight-way reflection of each of its pixels, which the
//! program hands out to worker threads pixel by pixel.
use vstd::prelude::*;

use crate::algorithms::cell_text::{circle_cell_text, place_word};
use crate::algorithms::circle::circle_base::{circle_decision, circle_decision_fits, CircleBase};
use crate::algorithms::circle_walk::{
    circle_fits, circle_octant, circle_outline, lemma_mirror8_all_concat, lemma_mirror8_all_cons,
    lemma_walk_start, lemma_walk_step, lemma_walk_unfold, mirror8_all,
    mirror8, octant_walk, push_octants, walk_inv,
};
use crate::algorithms::{cells, fits_i32, Point};

verus! {

/// A sequence of `i32` pairs as mathematical integer pairs.
pub open spec fn int_pairs(s: Seq<(i32, i32)>) -> Seq<(int, int)> {
    s.map_values(|p: (i32, i32)| (p.0 as int, p.1 as int))
}

pub struct ParallelMidpointCircle {
    pub base: CircleBase,
    pub points: Vec<Point>,
}

impl Default for ParallelMidpointCircle {
    /// A circle of radius 15 around the origin, already computed: the two
    /// phases run one after the other.
    fn default() -> (s: Self)
        ensures
            s.base.center_x == 0 && s.base.center_y == 0 && s.base.radius == 15,
            !s.base.show_smooth_overlay,
            cells(s.points@) == circle_outline(0, 0, 15),
    {
        let mut s = ParallelMidpointCircle { base: CircleBase::new(0, 0, 15), points: Vec::new() };
        let edges = s.edge_points();
        let all = s.reflect_edges(&edges);
        s.set_points(all);
        s
    }
}

impl ParallelMidpointCircle {
    pub fn name(&self) -> (n: &'static str)
        ensures
            n@ == "Parallel Midpoint Circle"@,
    {
        "Parallel Midpoint Circle"
    }

    pub fn category(&self) -> (c: &'static str)
        ensures
            c@ == "circle"@,
    {
        "circle"
    }

    /// Phase one: the first-octant pixels of the midpoint walk, in order.
    pub fn edge_points(&self) -> (edges: Vec<(i32, i32)>)
        requires
            circle_fits(self.base.center_x as int, self.base.center_y as int, self.base.radius as int),
        ensures
            int_pairs(edges@) == circle_octant(self.base.radius as int),
            forall|i: int|
                0 <= i < edges@.len() ==> 0 <= (#[trigger] edges@[i]).0 <= edges@[i].1
                    <= self.base.radius,
    {
        let ghost r = self.base.radius as int;
        let mut edges: Vec<(i32, i32)> = Vec::new();
        let mut x: i32 = 0;
        let mut y: i32 = self.base.radius;
        let mut d: i32 = 1 - self.base.radius;
        proof {
            if r >= 0 {
                lemma_walk_start(r);
            }
            assert(int_pairs(edges@) + octant_walk(x as int, y as int, d as int) =~= circle_octant(
                r,
            ));
        }
        while x <= y
            invariant
                r == self.base.radius,
                circle_fits(self.base.center_x as int, self.base.center_y as int, r),
                r >= 0 ==> walk_inv(r, x as int, y as int, d as int),
                r < 0 ==> x > y,
                int_pairs(edges@) + octant_walk(x as int, y as int, d as int) == circle_octant(r),
                forall|i: int|
                    0 <= i < edges@.len() ==> 0 <= (#[trigger] edges@[i]).0 <= edges@[i].1 <= r,
            decreases y - x + 2,
        {
            proof {
                lemma_walk_step(r, x as int, y as int, d as int);
                lemma_walk_unfold(x as int, y as int, d as int);
            }
            let ghost before = edges@;
            edges.push((x, y));
            if d < 0 {
                d += 2 * x + 3;
            } else {
                d += 2 * (x - y) + 5;
                y -= 1;
            }
            x += 1;
            proof {
                assert(int_pairs(edges@) =~= int_pairs(before).push((edges@.last().0 as int, edges@.last().1 as int)));
                assert(int_pairs(edges@) + octant_walk(x as int, y as int, d as int) =~= circle_octant(r));
            }
        }
        proof {
            assert(int_pairs(edges@) =~= circle_octant(r));
        }
        edges
    }

    /// Phase two, for one edge pixel: the eight reflections of `(x, y)` around
    /// the center, for any pixel whose reflections have `i32` coordinates.
    pub fn generate_octants(&self, x: i32, y: i32) -> (ps: Vec<Point>)
        requires
            fits_i32(self.base.center_x + x),
            fits_i32(self.base.center_x - x),
            fits_i32(self.base.center_x + y),
            fits_i32(self.base.center_x - y),
            fits_i32(self.base.center_y + x),
            fits_i32(self.base.center_y - x),
            fits_i32(self.base.center_y + y),
            fits_i32(self.base.center_y - y),
        ensures
            cells(ps@) == mirror8(self.base.center_x as int, self.base.center_y as int, x as int, y as int),
    {
        let mut ps: Vec<Point> = Vec::new();
        push_octants(&mut ps, self.base.center_x, self.base.center_y, x, y);
        assert(cells(Seq::<Point>::empty()) =~= Seq::<(int, int)>::empty());
        ps
    }

    /// Phase two for every edge pixel in turn: the eight reflections of each,
    /// in the order of the edge pixels.
    fn reflect_edges(&self, edges: &Vec<(i32, i32)>) -> (ps: Vec<Point>)
        requires
            circle_fits(self.base.center_x as int, self.base.center_y as int, self.base.radius as int),
            forall|i: int|
                0 <= i < edges@.len() ==> 0 <= (#[trigger] edges@[i]).0 <= edges@[i].1 <= self.base.radius,
        ensures
            cells(ps@) == mirror8_all(self.base.center_x as int, self.base.center_y as int, int_pairs(edges@)),
    {
        let ghost gx = self.base.center_x as int;
        let ghost gy = self.base.center_y as int;
        let mut ps: Vec<Point> = Vec::new();
        let mut k: usize = 0;
        proof {
            assert(int_pairs(edges@).take(0) =~= Seq::<(int, int)>::empty());
            assert(cells(ps@) =~= mirror8_all(gx, gy, int_pairs(edges@).take(0)));
        }
        while k < edges.len()
            invariant
                k <= edges@.len(),
                gx == self.base.center_x,
                gy == self.base.center_y,
                circle_fits(gx, gy, self.base.radius as int),
                forall|i: int|
                    0 <= i < edges@.len() ==> 0 <= (#[trigger] edges@[i]).0 <= edges@[i].1 <= self.base.radius,
                cells(ps@) == mirror8_all(gx, gy, int_pairs(edges@).take(k as int)),
            decreases edges@.len() - k,
        {
            let (x, y) = edges[k];
            assert(0 <= x <= y <= self.base.radius);
            let mut more = self.generate_octants(x, y);
            let ghost before = ps@;
            let ghost added = more@;
            ps.append(&mut more);
            proof {
                let done = int_pairs(edges@).take(k as int);
                assert(int_pairs(edges@)[k as int] == (x as int, y as int));
                assert(int_pairs(edges@).take(k + 1) =~= done + seq![(x as int, y as int)]);
                lemma_mirror8_all_concat(gx, gy, done, seq![(x as int, y as int)]);
                lemma_mirror8_all_cons(gx, gy, (x as int, y as int), Seq::<(int, int)>::empty());
                assert(seq![(x as int, y as int)] + Seq::<(int, int)>::empty() =~= seq![(
                    x as int,
                    y as int,
                )]);
                assert(mirror8_all(gx, gy, Seq::<(int, int)>::empty()) =~= Seq::<(int, int)>::empty());
                assert(cells(before + added) =~= cells(before) + cells(added));
            }
            k += 1;
        }
        proof {
            assert(int_pairs(edges@).take(edges@.len() as int) =~= int_pairs(edges@));
        }
        ps
    }

    /// Install the points that the reflection phase produced.
    pub fn set_points(&mut self, points: Vec<Point>)
        ensures
            final(self).base == old(self).base,
            final(self).points@ == points@,
    {
        self.points = points;
    }

    /// The plotted points, in plotting order.
    pub fn points(&self) -> (ps: &[Point])
        ensures
            ps@ == self.points@,
    {
        self.points.as_slice()
    }

    pub fn overlay_circle(&self) -> (o: Option<(i32, i32, i32)>)
        ensures
            o == (if self.base.show_smooth_overlay {
                Some((self.base.center_x, self.base.center_y, self.base.radius))
            } else {
                None
            }),
    {
        self.base.overlay_circle_base()
    }

    pub fn cell_info(&self, cx: i32, cy: i32) -> (info: Option<String>)
        requires
            circle_decision_fits(
                self.base.center_x as int,
                self.base.center_y as int,
                self.base.radius as int,
                cx as int,
                cy as int,
            ),
        ensures
            info matches Some(t) && t@ == circle_cell_text(
                circle_decision(
                    self.base.center_x as int,
                    self.base.center_y as int,
                    self.base.radius as int,
                    cx as int,
                    cy as int,
                ),
                place_word(
                    circle_decision(
                        self.base.center_x as int,
                        self.base.center_y as int,
                        self.base.radius as int,
                        cx as int,
                        cy as int,
                    ),
                ),
            ),
    {
        self.base.cell_info_base(cx, cy)
    }
}

} // verus!

//! State and helpers shared by the ellipse rasterisers.
use vstd::prelude::*;

use crate::algorithms::cell_text::{ellipse_cell_text, format_ellipse_cell, place_of, place_word};
use crate::algorithms::duplicates::{cache_agrees, is_repeated, repeated_cached, repeated_flags};
use crate::algorithms::ellipse_walk::{in_quadrant_box, lemma_mirror4_all_push, mirror4, mirror4_all, wide_pairs};
use crate::algorithms::ring_steps::first_match;
use crate::algorithms::{cell, cells, fits_i32, Point};

verus! {

/// `v` is representable as an `i64`.
pub open spec fn fits_i64(v: int) -> bool {
    i64::MIN <= v <= i64::MAX
}

/// The implicit ellipse function `b²(px - cx)² + a²(py - cy)² - a²b²` with
/// `a = rx`, `b = ry`.
pub open spec fn ellipse_decision(cx: int, cy: int, rx: int, ry: int, px: int, py: int) -> int {
    ry * ry * (px - cx) * (px - cx) + rx * rx * (py - cy) * (py - cy) - rx * rx * ry * ry
}

/// Every intermediate value of the `i64` evaluation of the ellipse function
/// at `(px, py)` is representable, and so are the two `i32` offsets.
pub open spec fn ellipse_decision_fits(cx: int, cy: int, rx: int, ry: int, px: int, py: int) -> bool {
    let dx = px - cx;
    let dy = py - cy;
    &&& fits_i32(dx)
    &&& fits_i32(dy)
    &&& fits_i64(ry * ry * dx)
    &&& fits_i64(ry * ry * dx * dx)
    &&& fits_i64(rx * rx * dy)
    &&& fits_i64(rx * rx * dy * dy)
    &&& fits_i64(ry * ry * dx * dx + rx * rx * dy * dy)
    &&& fits_i64(rx * rx * ry)
    &&& fits_i64(rx * rx * ry * ry)
    &&& fits_i64(ellipse_decision(cx, cy, rx, ry, px, py))
}

/// Shared state and helpers for every ellipse algorithm.
///
/// Each algorithm embeds this struct and delegates the common parts
/// (overlay, cell info, duplicate highlighting) to it.
pub struct EllipseBase {
    pub center_x: i32,
    pub center_y: i32,
    pub radius_x: i32,
    pub radius_y: i32,
    /// Pixel buffer – algorithms write here directly.
    pub points: Vec<Point>,
    /// Concentric-ring index (1 … radius_y) for each point in `points`.
    /// Only filled by fill-style algorithms; outline algorithms leave it empty.
    pub point_rings: Vec<i32>,
    /// When `true`, draw a smooth analytic ellipse on top of the pixel output.
    pub show_smooth_overlay: bool,
    /// When `true`, pixels that appear more than once are highlighted.
    pub show_duplicates: bool,
    /// For each point, whether its cell repeats; `None` until filled.
    pub duplicate_cache: Option<Vec<bool>>,
}

impl EllipseBase {
    /// The duplicate cache is empty or agrees with `points`.
    pub open spec fn cache_valid(&self) -> bool {
        cache_agrees(self.duplicate_cache, self.points@)
    }

    /// `other` has the same center, radii and switches as `self`.
    pub open spec fn same_settings(&self, other: &EllipseBase) -> bool {
        &&& self.center_x == other.center_x
        &&& self.center_y == other.center_y
        &&& self.radius_x == other.radius_x
        &&& self.radius_y == other.radius_y
        &&& self.show_smooth_overlay == other.show_smooth_overlay
        &&& self.show_duplicates == other.show_duplicates
    }

    pub fn new(center_x: i32, center_y: i32, radius_x: i32, radius_y: i32) -> (s: Self)
        ensures
            s.center_x == center_x,
            s.center_y == center_y,
            s.radius_x == radius_x,
            s.radius_y == radius_y,
            s.points@.len() == 0,
            s.point_rings@.len() == 0,
            !s.show_smooth_overlay,
            !s.show_duplicates,
            s.duplicate_cache is None,
    {
        EllipseBase {
            center_x,
            center_y,
            radius_x,
            radius_y,
            points: Vec::new(),
            point_rings: Vec::new(),
            show_smooth_overlay: false,
            show_duplicates: false,
            duplicate_cache: None,
        }
    }

    /// Push one point (and its ring index) in all four symmetric quadrants.
    ///
    /// Pass `ring = 0` and leave `point_rings` empty for outline algorithms
    /// that don't use ring colouring.
    pub fn plot_symmetric(&mut self, x: i32, y: i32, ring: i32)
        requires
            fits_i32(old(self).center_x + x),
            fits_i32(old(self).center_x - x),
            fits_i32(old(self).center_y + y),
            fits_i32(old(self).center_y - y),
        ensures
            final(self).same_settings(old(self)),
            final(self).duplicate_cache == old(self).duplicate_cache,
            cells(final(self).points@) == cells(old(self).points@) + mirror4(
                old(self).center_x as int,
                old(self).center_y as int,
                x as int,
                y as int,
            ),
            final(self).point_rings@ == old(self).point_rings@ + seq![ring, ring, ring, ring],
    {
        let ghost start = self.points@;
        self.points.push(Point { x: self.center_x + x, y: self.center_y + y });
        self.point_rings.push(ring);
        self.points.push(Point { x: self.center_x - x, y: self.center_y + y });
        self.point_rings.push(ring);
        self.points.push(Point { x: self.center_x + x, y: self.center_y - y });
        self.point_rings.push(ring);
        self.points.push(Point { x: self.center_x - x, y: self.center_y - y });
        self.point_rings.push(ring);
        assert(cells(self.points@) =~= cells(start) + mirror4(
            self.center_x as int,
            self.center_y as int,
            x as int,
            y as int,
        ));
        assert(self.point_rings@ =~= old(self).point_rings@ + seq![ring, ring, ring, ring]);
    }

    /// Plot the four images of every quadrant pixel of `q`, in order, each
    /// labelled with `ring`.
    pub fn plot_quadrant(&mut self, q: &Vec<(i64, i64)>, ring: i32, r: Ghost<int>, s: Ghost<int>)
        requires
            in_quadrant_box(wide_pairs(q@), r@, s@),
            fits_i32(old(self).center_x - r@),
            fits_i32(old(self).center_x + r@),
            fits_i32(old(self).center_y - s@),
            fits_i32(old(self).center_y + s@),
        ensures
            final(self).same_settings(old(self)),
            final(self).duplicate_cache == old(self).duplicate_cache,
            cells(final(self).points@) == cells(old(self).points@) + mirror4_all(
                old(self).center_x as int,
                old(self).center_y as int,
                wide_pairs(q@),
            ),
            final(self).point_rings@ == old(self).point_rings@ + Seq::new(
                4 * q@.len(),
                |i: int| ring,
            ),
    {
        let ghost cx = self.center_x as int;
        let ghost cy = self.center_y as int;
        let ghost p0 = cells(self.points@);
        let ghost rings0 = self.point_rings@;
        let n = q.len();
        let mut k: usize = 0;
        proof {
            assert(wide_pairs(q@).take(0) =~= Seq::<(int, int)>::empty());
            assert(cells(self.points@) =~= p0 + mirror4_all(cx, cy, wide_pairs(q@).take(0)));
            assert(self.point_rings@ =~= rings0 + Seq::new(0, |i: int| ring));
        }
        while k < n
            invariant
                n == q@.len(),
                k <= n,
                self.same_settings(old(self)),
                self.duplicate_cache == old(self).duplicate_cache,
                cx == self.center_x,
                cy == self.center_y,
                in_quadrant_box(wide_pairs(q@), r@, s@),
                fits_i32(cx - r@),
                fits_i32(cx + r@),
                fits_i32(cy - s@),
                fits_i32(cy + s@),
                cells(self.points@) == p0 + mirror4_all(cx, cy, wide_pairs(q@).take(k as int)),
                self.point_rings@ == rings0 + Seq::new(4 * k as nat, |i: int| ring),
            decreases n - k,
        {
            let (x, y) = q[k];
            assert(wide_pairs(q@)[k as int] == (x as int, y as int));
            self.plot_symmetric(x as i32, y as i32, ring);
            proof {
                assert(wide_pairs(q@).take(k + 1) =~= wide_pairs(q@).take(k as int).push(
                    (x as int, y as int),
                ));
                lemma_mirror4_all_push(cx, cy, wide_pairs(q@).take(k as int), (x as int, y as int));
                assert(self.point_rings@ =~= rings0 + Seq::new(4 * (k + 1) as nat, |i: int| ring));
            }
            k = k + 1;
        }
        proof {
            assert(wide_pairs(q@).take(n as int) =~= wide_pairs(q@));
        }
    }

    /// Implicit ellipse equation value at pixel `(px, py)`:
    ///   b²·(px−cx)²  +  a²·(py−cy)²  −  a²·b²
    /// Negative ⟹ inside, zero ⟹ on curve, positive ⟹ outside.
    pub fn decision_parameter(&self, px: i32, py: i32) -> (d: i64)
        requires
            ellipse_decision_fits(
                self.center_x as int,
                self.center_y as int,
                self.radius_x as int,
                self.radius_y as int,
                px as int,
                py as int,
            ),
        ensures
            d == ellipse_decision(
                self.center_x as int,
                self.center_y as int,
                self.radius_x as int,
                self.radius_y as int,
                px as int,
                py as int,
            ),
    {
        let dx = (px - self.center_x) as i64;
        let dy = (py - self.center_y) as i64;
        let a = self.radius_x as i64;
        let b = self.radius_y as i64;
        proof {
            assert(fits_i64(b * b)) by (nonlinear_arith)
                requires
                    -0x8000_0000 <= b <= 0x7fff_ffff,
            ;
            assert(fits_i64(a * a)) by (nonlinear_arith)
                requires
                    -0x8000_0000 <= a <= 0x7fff_ffff,
            ;
        }
        b * b * dx * dx + a * a * dy * dy - a * a * b * b
    }

    /// Return the ring colour for point `i` from `palette`: the entry at the
    /// point's ring index modulo the palette's length.  Returns `None` when
    /// point `i` has no ring index.
    pub fn ring_color<T: Copy>(&self, i: usize, palette: &[T]) -> (c: Option<T>)
        requires
            palette@.len() > 0,
        ensures
            c == (if i < self.point_rings@.len() {
                Some(
                    palette@[((self.point_rings@[i as int] as usize) as int) % (
                    palette@.len() as int)],
                )
            } else {
                None
            }),
    {
        if i >= self.point_rings.len() {
            return None;
        }
        let r = self.point_rings[i] as usize;
        Some(palette[r % palette.len()])
    }

    /// Duplicate-aware colour for point `i`.
    ///
    /// * If duplicate highlighting is **off** → returns `fallback`.
    /// * If the pixel is a duplicate → returns `highlight`.
    /// * Otherwise → returns `fallback`.
    pub fn duplicate_color<T>(&self, i: usize, fallback: Option<T>, highlight: T) -> (c: Option<T>)
        requires
            self.cache_valid(),
            self.show_duplicates ==> i < self.points@.len(),
        ensures
            c == (if self.show_duplicates && is_repeated(cells(self.points@), i as int) {
                Some(highlight)
            } else {
                fallback
            }),
    {
        if !self.show_duplicates {
            return fallback;
        }
        if repeated_cached(&self.duplicate_cache, &self.points, i) {
            Some(highlight)
        } else {
            fallback
        }
    }

    /// Invalidate the duplicate cache (call whenever `points` is rebuilt).
    pub fn invalidate_cache(&mut self)
        ensures
            final(self).duplicate_cache is None,
            final(self).same_settings(old(self)),
            final(self).points@ == old(self).points@,
            final(self).point_rings@ == old(self).point_rings@,
    {
        self.duplicate_cache = None;
    }

    /// Fill the duplicate cache for the current points.
    pub fn refresh_duplicate_cache(&mut self)
        ensures
            final(self).duplicate_cache is Some,
            final(self).cache_valid(),
            final(self).same_settings(old(self)),
            final(self).points@ == old(self).points@,
            final(self).point_rings@ == old(self).point_rings@,
    {
        let flags = repeated_flags(&self.points);
        self.duplicate_cache = Some(flags);
    }

    /// Returns `Some((cx, cy, rx, ry))` when the overlay is enabled.
    pub fn overlay_ellipse_base(&self) -> (o: Option<(i32, i32, i32, i32)>)
        ensures
            o == (if self.show_smooth_overlay {
                Some((self.center_x, self.center_y, self.radius_x, self.radius_y))
            } else {
                None
            }),
    {
        if self.show_smooth_overlay {
            Some((self.center_x, self.center_y, self.radius_x, self.radius_y))
        } else {
            None
        }
    }

    /// Human-readable implicit-equation value for a hovered cell.
    pub fn cell_info_base(&self, cx: i32, cy: i32) -> (info: Option<String>)
        requires
            ellipse_decision_fits(
                self.center_x as int,
                self.center_y as int,
                self.radius_x as int,
                self.radius_y as int,
                cx as int,
                cy as int,
            ),
        ensures
            info matches Some(t) && t@ == ellipse_cell_text(
                ellipse_decision(
                    self.center_x as int,
                    self.center_y as int,
                    self.radius_x as int,
                    self.radius_y as int,
                    cx as int,
                    cy as int,
                ),
                place_word(
                    ellipse_decision(
                        self.center_x as int,
                        self.center_y as int,
                        self.radius_x as int,
                        self.radius_y as int,
                        cx as int,
                        cy as int,
                    ),
                ),
            ),
    {
        let d = self.decision_parameter(cx, cy);
        let place = place_of(d);
        Some(format_ellipse_cell(d, place))
    }

    /// The ring index of the first point at `(cx, cy)` among the points that
    /// have a ring index; `None` when there is none.
    pub open spec fn ring_at(&self, cx: int, cy: int) -> Option<i32> {
        let n = if self.points@.len() < self.point_rings@.len() {
            self.points@.len()
        } else {
            self.point_rings@.len()
        };
        let i = first_match(cells(self.points@.take(n as int)), (cx, cy), 0);
        if i < 0 {
            None
        } else {
            Some(self.point_rings@[i])
        }
    }

    /// The ring index of the first point at `(cx, cy)` among the points that
    /// have a ring index; `None` when there is none.
    pub fn ring_at_cell(&self, cx: i32, cy: i32) -> (ring: Option<i32>)
        ensures
            ring == self.ring_at(cx as int, cy as int),
    {
        let n = if self.points.len() < self.point_rings.len() {
            self.points.len()
        } else {
            self.point_rings.len()
        };
        let ghost s = cells(self.points@.take(n as int));
        let ghost c = (cx as int, cy as int);
        let mut i: usize = 0;
        while i < n
            invariant
                n == (if self.points@.len() < self.point_rings@.len() {
                    self.points@.len()
                } else {
                    self.point_rings@.len()
                }),
                s == cells(self.points@.take(n as int)),
                c == (cx as int, cy as int),
                i <= n,
                first_match(s, c, 0) == first_match(s, c, i as int),
            decreases n - i,
        {
            assert(s[i as int] == cell(self.points@[i as int]));
            if self.points[i].x == cx && self.points[i].y == cy {
                assert(s[i as int] == c);
                assert(first_match(s, c, i as int) == i as int);
                return Some(self.point_rings[i]);
            }
            i = i + 1;
        }
        None
    }

    /// The integer terms of the ring description of a hovered cell: for the
    /// ring index `ring` of the first labelled point at `(cx, cy)`, the ring
    /// number `n = ring - 1`, the column offset `cx - center_x`, and the
    /// ring's radii `radius_x - n` and `radius_y - n`; `None` when no
    /// labelled point lies there.
    pub fn cell_info_ring_base(&self, cx: i32, cy: i32) -> (info: Option<(i64, i64, i64, i64)>)
        ensures
            info is Some <==> self.ring_at(cx as int, cy as int) is Some,
            info matches Some(t) ==> {
                let n = self.ring_at(cx as int, cy as int)->0 - 1;
                &&& t.0 == n
                &&& t.1 == cx - self.center_x
                &&& t.2 == self.radius_x - n
                &&& t.3 == self.radius_y - n
            },
    {
        match self.ring_at_cell(cx, cy) {
            Some(ring) => {
                let n = ring as i64 - 1;
                let x = cx as i64 - self.center_x as i64;
                Some((n, x, self.radius_x as i64 - n, self.radius_y as i64 - n))
            },
            None => None,
        }
    }
}

} // verus!

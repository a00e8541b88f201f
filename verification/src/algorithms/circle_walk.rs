//! The midpoint circle walk: its recurrence, its closed form and the
//! eight-way mirroring that turns one octant into a whole circle.
use vstd::prelude::*;

use crate::algorithms::{cell, cells, fits_i32, lemma_cells_push, Point};

verus! {

/// Largest radius the walks accept; every decision value then stays far
/// inside the `i32` range.
pub const MAX_RADIUS: i32 = 0x0fff_ffff;

/// A circle of radius `r` around `(cx, cy)` whose pixels all have `i32`
/// coordinates and whose decision values all fit in an `i32`.
pub open spec fn circle_fits(cx: int, cy: int, r: int) -> bool {
    &&& -MAX_RADIUS <= r <= MAX_RADIUS
    &&& r >= 0 ==> fits_i32(cx - r) && fits_i32(cx + r) && fits_i32(cy - r) && fits_i32(cy + r)
}

/// One step of the walk from `(x, y)` with decision value `d`: east when the
/// midpoint `(x + 1, y - 1/2)` lies inside the circle, south-east otherwise.
pub open spec fn walk_next(x: int, y: int, d: int) -> (int, int, int) {
    if d < 0 {
        (x + 1, y, d + 2 * x + 3)
    } else {
        (x + 1, y - 1, d + 2 * (x - y) + 5)
    }
}

/// The first-octant pixels visited from state `(x, y, d)` until `x > y`.
pub open spec fn octant_walk(x: int, y: int, d: int) -> Seq<(int, int)>
    decreases y - x + 2,
{
    if x > y {
        Seq::empty()
    } else {
        let n = walk_next(x, y, d);
        seq![(x, y)] + octant_walk(n.0, n.1, n.2)
    }
}

/// The first-octant pixels of the midpoint circle of radius `r`.
pub open spec fn circle_octant(r: int) -> Seq<(int, int)> {
    octant_walk(0, r, 1 - r)
}

/// The eight images of the octant pixel `(x, y)` around `(cx, cy)`, in the
/// order in which they are plotted.
pub open spec fn mirror8(cx: int, cy: int, x: int, y: int) -> Seq<(int, int)> {
    seq![
        (cx + x, cy + y),
        (cx - x, cy + y),
        (cx + x, cy - y),
        (cx - x, cy - y),
        (cx + y, cy + x),
        (cx - y, cy + x),
        (cx + y, cy - x),
        (cx - y, cy - x),
    ]
}

/// The eight images of every octant pixel of `s`, octant pixel by octant pixel.
pub open spec fn mirror8_all(cx: int, cy: int, s: Seq<(int, int)>) -> Seq<(int, int)>
    decreases s.len(),
{
    if s.len() == 0 {
        Seq::empty()
    } else {
        mirror8(cx, cy, s[0].0, s[0].1) + mirror8_all(cx, cy, s.drop_first())
    }
}

/// The pixels of the midpoint circle of radius `r` around `(cx, cy)`.
pub open spec fn circle_outline(cx: int, cy: int, r: int) -> Seq<(int, int)> {
    mirror8_all(cx, cy, circle_octant(r))
}

/// The implicit circle function of radius `r` at offset `(u, v)`.
pub open spec fn circle_value(u: int, v: int, r: int) -> int {
    u * u + v * v - r * r
}

/// The absolute value of `v`.
pub open spec fn abs(v: int) -> int {
    if v < 0 {
        -v
    } else {
        v
    }
}

/// The midpoint band: the pixel at offset `(u, v)` is the lattice point of
/// its column (or row) that lies closest to the circle of radius `r`.
pub open spec fn in_midpoint_band(u: int, v: int, r: int) -> bool {
    let m = if abs(u) < abs(v) {
        abs(v)
    } else {
        abs(u)
    };
    -m <= circle_value(u, v, r) < m
}

/// The state invariant of the walk for a radius `r >= 0`.
pub open spec fn walk_inv(r: int, x: int, y: int, d: int) -> bool {
    &&& r >= 0
    &&& 0 <= x
    &&& y <= r
    &&& d == x * x + y * y - r * r + 2 * x + 1 - y
    &&& x <= y ==> -y <= x * x + y * y - r * r <= y
    &&& x <= y && r >= 1 ==> x * x + y * y - r * r < y
}

/// The walk's invariant holds initially.
pub proof fn lemma_walk_start(r: int)
    requires
        r >= 0,
    ensures
        walk_inv(r, 0, r, 1 - r),
{
}

/// One step keeps the invariant, and the values met stay small.
pub proof fn lemma_walk_step(r: int, x: int, y: int, d: int)
    requires
        walk_inv(r, x, y, d),
        x <= y,
    ensures
        walk_inv(r, walk_next(x, y, d).0, walk_next(x, y, d).1, walk_next(x, y, d).2),
        1 - 2 * r <= d <= 2 * r + 1,
        r >= 1 ==> x + 1 <= r,
        0 <= y,
{
    assert((x + 1) * (x + 1) == x * x + 2 * x + 1) by (nonlinear_arith);
    assert((y - 1) * (y - 1) == y * y - 2 * y + 1) by (nonlinear_arith);
    assert(x * x >= x) by (nonlinear_arith)
        requires
            x >= 0,
    ;
    assert(x * x + y * y >= y) by (nonlinear_arith)
        requires
            x >= 0,
            x <= y,
    ;
    if y == r && r >= 1 {
        assert(x * x < r);
    }
}

/// Every pixel of a walk that starts in an invariant state lies in the first
/// octant, inside the radius and in the midpoint band.
pub proof fn lemma_walk_band(r: int, x: int, y: int, d: int)
    requires
        walk_inv(r, x, y, d),
        r >= 1,
    ensures
        forall|i: int|
            0 <= i < octant_walk(x, y, d).len() ==> {
                let p = #[trigger] octant_walk(x, y, d)[i];
                &&& 0 <= p.0 <= p.1 <= r
                &&& -p.1 <= p.0 * p.0 + p.1 * p.1 - r * r < p.1
            },
    decreases y - x + 2,
{
    if x <= y {
        lemma_walk_step(r, x, y, d);
        let n = walk_next(x, y, d);
        lemma_walk_band(r, n.0, n.1, n.2);
        let s = octant_walk(x, y, d);
        assert forall|i: int| 0 <= i < s.len() implies {
            let p = #[trigger] s[i];
            &&& 0 <= p.0 <= p.1 <= r
            &&& -p.1 <= p.0 * p.0 + p.1 * p.1 - r * r < p.1
        } by {
            if i > 0 {
                assert(s[i] == octant_walk(n.0, n.1, n.2)[i - 1]);
            }
        }
    }
}

/// Unfolding the walk at an invariant state with `x <= y`.
pub proof fn lemma_walk_unfold(x: int, y: int, d: int)
    requires
        x <= y,
    ensures
        octant_walk(x, y, d) == seq![(x, y)] + octant_walk(
            walk_next(x, y, d).0,
            walk_next(x, y, d).1,
            walk_next(x, y, d).2,
        ),
{
}

/// Mirroring distributes over a leading pixel.
pub proof fn lemma_mirror8_all_cons(cx: int, cy: int, a: (int, int), s: Seq<(int, int)>)
    ensures
        mirror8_all(cx, cy, seq![a] + s) == mirror8(cx, cy, a.0, a.1) + mirror8_all(cx, cy, s),
{
    let t = seq![a] + s;
    assert(t[0] == a);
    assert(t.drop_first() =~= s);
}

/// Mirroring a walk that is done gives nothing.
pub proof fn lemma_walk_done(cx: int, cy: int, x: int, y: int, d: int)
    requires
        x > y,
    ensures
        mirror8_all(cx, cy, octant_walk(x, y, d)) == Seq::<(int, int)>::empty(),
{
}

/// Advancing the walk by one pixel moves its eight images from the
/// remaining part of the outline to the part already plotted.
pub proof fn lemma_walk_advance(
    cx: int,
    cy: int,
    x: int,
    y: int,
    d: int,
    done: Seq<(int, int)>,
    whole: Seq<(int, int)>,
)
    requires
        x <= y,
        done + mirror8_all(cx, cy, octant_walk(x, y, d)) == whole,
    ensures
        (done + mirror8(cx, cy, x, y)) + mirror8_all(
            cx,
            cy,
            octant_walk(walk_next(x, y, d).0, walk_next(x, y, d).1, walk_next(x, y, d).2),
        ) == whole,
{
    let n = walk_next(x, y, d);
    lemma_walk_unfold(x, y, d);
    lemma_mirror8_all_cons(cx, cy, (x, y), octant_walk(n.0, n.1, n.2));
    assert((done + mirror8(cx, cy, x, y)) + mirror8_all(cx, cy, octant_walk(n.0, n.1, n.2))
        =~= done + mirror8_all(cx, cy, octant_walk(x, y, d)));
}

/// Push the eight images of the octant pixel `(x, y)` around `(cx, cy)`.
pub fn push_octants(points: &mut Vec<Point>, cx: i32, cy: i32, x: i32, y: i32)
    requires
        fits_i32(cx + x),
        fits_i32(cx - x),
        fits_i32(cx + y),
        fits_i32(cx - y),
        fits_i32(cy + x),
        fits_i32(cy - x),
        fits_i32(cy + y),
        fits_i32(cy - y),
    ensures
        cells(final(points)@) == cells(old(points)@) + mirror8(
            cx as int,
            cy as int,
            x as int,
            y as int,
        ),
{
    let ghost start = points@;
    points.push(Point { x: cx + x, y: cy + y });
    points.push(Point { x: cx - x, y: cy + y });
    points.push(Point { x: cx + x, y: cy - y });
    points.push(Point { x: cx - x, y: cy - y });
    points.push(Point { x: cx + y, y: cy + x });
    points.push(Point { x: cx - y, y: cy + x });
    points.push(Point { x: cx + y, y: cy - x });
    points.push(Point { x: cx - y, y: cy - x });
    assert(cells(points@) =~= cells(start) + mirror8(cx as int, cy as int, x as int, y as int));
}

} // verus!

verus! {

/// Every mirrored sequence holds eight cells per octant pixel, the `k`-th
/// being image `k % 8` of octant pixel `k / 8`.
pub proof fn lemma_mirror8_all_index(cx: int, cy: int, s: Seq<(int, int)>)
    ensures
        mirror8_all(cx, cy, s).len() == 8 * s.len(),
        forall|k: int|
            0 <= k < 8 * s.len() ==> #[trigger] mirror8_all(cx, cy, s)[k] == mirror8(
                cx,
                cy,
                s[k / 8].0,
                s[k / 8].1,
            )[k % 8],
    decreases s.len(),
{
    if s.len() > 0 {
        let t = s.drop_first();
        lemma_mirror8_all_index(cx, cy, t);
        let m = mirror8_all(cx, cy, s);
        assert forall|k: int| 0 <= k < 8 * s.len() implies #[trigger] m[k] == mirror8(
            cx,
            cy,
            s[k / 8].0,
            s[k / 8].1,
        )[k % 8] by {
            if k >= 8 {
                assert(m[k] == mirror8_all(cx, cy, t)[k - 8]);
                assert((k - 8) / 8 == k / 8 - 1);
                assert((k - 8) % 8 == k % 8);
                assert(t[(k - 8) / 8] == s[k / 8]);
            }
        }
    }
}

/// The eight images of a first-octant pixel in the band lie in the band.
pub proof fn lemma_mirror8_band(cx: int, cy: int, x: int, y: int, r: int, j: int)
    requires
        0 <= x <= y,
        -y <= x * x + y * y - r * r < y,
        0 <= j < 8,
    ensures
        in_midpoint_band(
            mirror8(cx, cy, x, y)[j].0 - cx,
            mirror8(cx, cy, x, y)[j].1 - cy,
            r,
        ),
{
    assert((-x) * (-x) == x * x) by (nonlinear_arith);
    assert((-y) * (-y) == y * y) by (nonlinear_arith);
}

/// Law: every pixel of the midpoint circle of radius `r >= 1` lies in the
/// midpoint band, and the outline holds eight pixels per octant pixel.
pub proof fn lemma_outline_in_band(cx: int, cy: int, r: int)
    requires
        r >= 1,
    ensures
        circle_outline(cx, cy, r).len() == 8 * circle_octant(r).len(),
        forall|i: int|
            0 <= i < circle_outline(cx, cy, r).len() ==> in_midpoint_band(
                #[trigger] circle_outline(cx, cy, r)[i].0 - cx,
                circle_outline(cx, cy, r)[i].1 - cy,
                r,
            ),
{
    let s = circle_octant(r);
    lemma_walk_start(r);
    lemma_walk_band(r, 0, r, 1 - r);
    lemma_mirror8_all_index(cx, cy, s);
    assert forall|i: int| 0 <= i < circle_outline(cx, cy, r).len() implies in_midpoint_band(
        #[trigger] circle_outline(cx, cy, r)[i].0 - cx,
        circle_outline(cx, cy, r)[i].1 - cy,
        r,
    ) by {
        let p = s[i / 8];
        lemma_mirror8_band(cx, cy, p.0, p.1, r, i % 8);
    }
}

/// The image index that a reflection in the vertical axis through the center
/// sends image `j` to.
pub open spec fn flip_x(j: int) -> int {
    if j == 0 { 1 } else if j == 1 { 0 } else if j == 2 { 3 } else if j == 3 { 2 }
    else if j == 4 { 5 } else if j == 5 { 4 } else if j == 6 { 7 } else { 6 }
}

/// The image index that a reflection in the diagonal through the center
/// sends image `j` to.
pub open spec fn flip_diag(j: int) -> int {
    if j == 0 { 4 } else if j == 1 { 6 } else if j == 2 { 5 } else if j == 3 { 7 }
    else if j == 4 { 0 } else if j == 5 { 2 } else if j == 6 { 1 } else { 3 }
}

/// Law: the outline is symmetric under reflection in the vertical axis and in
/// the diagonal through the center, hence under all eight symmetries of the
/// square.
pub proof fn lemma_outline_symmetric(cx: int, cy: int, r: int)
    ensures
        forall|i: int|
            0 <= i < circle_outline(cx, cy, r).len() ==> {
                let p = #[trigger] circle_outline(cx, cy, r)[i];
                &&& circle_outline(cx, cy, r).contains((2 * cx - p.0, p.1))
                &&& circle_outline(cx, cy, r).contains((cx + (p.1 - cy), cy + (p.0 - cx)))
            },
{
    let s = circle_octant(r);
    let o = circle_outline(cx, cy, r);
    lemma_mirror8_all_index(cx, cy, s);
    assert forall|i: int| 0 <= i < o.len() implies {
        let p = #[trigger] o[i];
        &&& o.contains((2 * cx - p.0, p.1))
        &&& o.contains((cx + (p.1 - cy), cy + (p.0 - cx)))
    } by {
        let m = i / 8;
        let j = i % 8;
        let a = 8 * m + flip_x(j);
        let b = 8 * m + flip_diag(j);
        assert(a / 8 == m && a % 8 == flip_x(j));
        assert(b / 8 == m && b % 8 == flip_diag(j));
        assert(o[a] == (2 * cx - o[i].0, o[i].1));
        assert(o[b] == (cx + (o[i].1 - cy), cy + (o[i].0 - cx)));
    }
}

} // verus!

verus! {

/// The rings produced for radius `1 ..= n` by `ring`, innermost first.
pub open spec fn stacked(ring: spec_fn(int) -> Seq<(int, int)>, n: int) -> Seq<(int, int)>
    decreases n,
{
    if n <= 0 {
        Seq::empty()
    } else {
        stacked(ring, n - 1) + ring(n)
    }
}

/// For every pixel of `stacked(ring, n)`, the radius of its ring.
pub open spec fn stacked_labels(ring: spec_fn(int) -> Seq<(int, int)>, n: int) -> Seq<i32>
    decreases n,
{
    if n <= 0 {
        Seq::empty()
    } else {
        stacked_labels(ring, n - 1) + Seq::new(ring(n).len(), |i: int| n as i32)
    }
}

/// Where each ring of `stacked(ring, n)` starts among its pixels.
pub open spec fn stacked_starts(ring: spec_fn(int) -> Seq<(int, int)>, n: int) -> Seq<usize> {
    Seq::new(
        (if n <= 0 {
            0
        } else {
            n
        }) as nat,
        |k: int| stacked(ring, k).len() as usize,
    )
}

/// There is one label per pixel of the stacked rings.
pub proof fn lemma_stacked_len(ring: spec_fn(int) -> Seq<(int, int)>, n: int)
    ensures
        stacked_labels(ring, n).len() == stacked(ring, n).len(),
    decreases n,
{
    if n > 0 {
        lemma_stacked_len(ring, n - 1);
    }
}

/// The midpoint outlines around `(cx, cy)`, indexed by radius.
pub open spec fn outline_ring(cx: int, cy: int) -> spec_fn(int) -> Seq<(int, int)> {
    |k: int| circle_outline(cx, cy, k)
}

/// The midpoint outlines of radius `1 ..= n` around `(cx, cy)`, innermost first.
pub open spec fn ring_outlines(cx: int, cy: int, n: int) -> Seq<(int, int)> {
    stacked(outline_ring(cx, cy), n)
}

} // verus!

verus! {

/// Whether the fill walk adds the pixel `(x + 1, y)` before stepping
/// south-east: the fill decision value `d + 2y - 2r - 1` is negative.
pub open spec fn fill_extra(r: int, y: int, d: int) -> bool {
    d >= 0 && d + 2 * y - 2 * r - 1 < 0
}

/// The first-octant pixels of the gap-filling walk of radius `r` from state
/// `(x, y, d)`: the midpoint walk plus the extra pixels it decides to add.
pub open spec fn fill_walk(r: int, x: int, y: int, d: int) -> Seq<(int, int)>
    decreases y - x + 2,
{
    if x > y {
        Seq::empty()
    } else {
        let n = walk_next(x, y, d);
        seq![(x, y)] + (if fill_extra(r, y, d) {
            seq![(x + 1, y)]
        } else {
            Seq::empty()
        }) + fill_walk(r, n.0, n.1, n.2)
    }
}

/// The pixels of the gap-filling ring of radius `r` around `(cx, cy)`.
pub open spec fn fill_ring_cells(cx: int, cy: int, r: int) -> Seq<(int, int)> {
    mirror8_all(cx, cy, fill_walk(r, 0, r, 1 - r))
}

/// The gap-filling rings around `(cx, cy)`, indexed by radius.
pub open spec fn fill_ring(cx: int, cy: int) -> spec_fn(int) -> Seq<(int, int)> {
    |k: int| fill_ring_cells(cx, cy, k)
}

/// Mirroring distributes over concatenation.
pub proof fn lemma_mirror8_all_concat(cx: int, cy: int, a: Seq<(int, int)>, b: Seq<(int, int)>)
    ensures
        mirror8_all(cx, cy, a + b) == mirror8_all(cx, cy, a) + mirror8_all(cx, cy, b),
    decreases a.len(),
{
    if a.len() == 0 {
        assert(a + b =~= b);
    } else {
        let t = a.drop_first();
        lemma_mirror8_all_concat(cx, cy, t, b);
        assert((a + b).drop_first() =~= t + b);
        assert((a + b)[0] == a[0]);
    }
}

/// Advancing the fill walk by one step moves the images of its pixels from
/// the remaining part of the ring to the part already plotted.
pub proof fn lemma_fill_advance(
    cx: int,
    cy: int,
    r: int,
    x: int,
    y: int,
    d: int,
    done: Seq<(int, int)>,
    whole: Seq<(int, int)>,
)
    requires
        x <= y,
        done + mirror8_all(cx, cy, fill_walk(r, x, y, d)) == whole,
    ensures
        (done + mirror8(cx, cy, x, y) + (if fill_extra(r, y, d) {
            mirror8(cx, cy, x + 1, y)
        } else {
            Seq::empty()
        })) + mirror8_all(
            cx,
            cy,
            fill_walk(r, walk_next(x, y, d).0, walk_next(x, y, d).1, walk_next(x, y, d).2),
        ) == whole,
        fill_walk(r, x, y, d).len() == 1 + (if fill_extra(r, y, d) {
            1int
        } else {
            0
        }) + fill_walk(r, walk_next(x, y, d).0, walk_next(x, y, d).1, walk_next(x, y, d).2).len(),
{
    let n = walk_next(x, y, d);
    let extra: Seq<(int, int)> = if fill_extra(r, y, d) {
        seq![(x + 1, y)]
    } else {
        Seq::empty()
    };
    let rest = fill_walk(r, n.0, n.1, n.2);
    assert(fill_walk(r, x, y, d) == seq![(x, y)] + extra + rest);
    lemma_mirror8_all_concat(cx, cy, seq![(x, y)] + extra, rest);
    lemma_mirror8_all_cons(cx, cy, (x, y), extra);
    if fill_extra(r, y, d) {
        lemma_mirror8_all_cons(cx, cy, (x + 1, y), Seq::empty());
        assert(mirror8_all(cx, cy, Seq::<(int, int)>::empty()) =~= Seq::<(int, int)>::empty());
        assert(mirror8(cx, cy, x + 1, y) + Seq::<(int, int)>::empty() =~= mirror8(cx, cy, x + 1, y));
    }
    assert((done + mirror8(cx, cy, x, y) + (if fill_extra(r, y, d) {
        mirror8(cx, cy, x + 1, y)
    } else {
        Seq::empty()
    })) + mirror8_all(cx, cy, rest) =~= done + mirror8_all(cx, cy, fill_walk(r, x, y, d)));
}

/// A fill walk that is done adds nothing.
pub proof fn lemma_fill_done(cx: int, cy: int, r: int, x: int, y: int, d: int)
    requires
        x > y,
    ensures
        mirror8_all(cx, cy, fill_walk(r, x, y, d)) == Seq::<(int, int)>::empty(),
        fill_walk(r, x, y, d).len() == 0,
{
}

} // verus!

verus! {

/// The stacked rings up to `k` are a prefix of those up to `n >= k`, with
/// their labels.
proof fn lemma_stacked_prefix(ring: spec_fn(int) -> Seq<(int, int)>, k: int, n: int)
    requires
        0 <= k <= n,
    ensures
        stacked(ring, k).len() <= stacked(ring, n).len(),
        stacked(ring, n).subrange(0, stacked(ring, k).len() as int) == stacked(ring, k),
        stacked_labels(ring, n).subrange(0, stacked(ring, k).len() as int) == stacked_labels(
            ring,
            k,
        ),
    decreases n - k,
{
    lemma_stacked_len(ring, n);
    lemma_stacked_len(ring, k);
    if k < n {
        lemma_stacked_prefix(ring, k, n - 1);
        lemma_stacked_len(ring, n - 1);
        let a = stacked(ring, n - 1);
        let la = stacked_labels(ring, n - 1);
        let m = stacked(ring, k).len() as int;
        assert(stacked(ring, n).subrange(0, m) =~= a.subrange(0, m));
        assert(stacked_labels(ring, n).subrange(0, m) =~= la.subrange(0, m));
    } else {
        assert(stacked(ring, n).subrange(0, stacked(ring, k).len() as int) =~= stacked(ring, n));
        assert(stacked_labels(ring, n).subrange(0, stacked(ring, k).len() as int)
            =~= stacked_labels(ring, n));
    }
}

/// Law: in rings stacked for radius `1 ..= n` there is one label per pixel,
/// every label is a radius in `1 ..= n`, and ring `k + 1` occupies the
/// pixels from its recorded start on, all of them labelled `k + 1`.
pub proof fn lemma_stacked_rings(ring: spec_fn(int) -> Seq<(int, int)>, n: int, k: int)
    requires
        n <= i32::MAX,
        0 <= k < n,
    ensures
        stacked_labels(ring, n).len() == stacked(ring, n).len(),
        forall|i: int|
            0 <= i < stacked_labels(ring, n).len() ==> 1 <= #[trigger] stacked_labels(ring, n)[i]
                <= n,
        stacked(ring, k).len() + ring(k + 1).len() <= stacked(ring, n).len(),
        stacked(ring, n).subrange(
            stacked(ring, k).len() as int,
            (stacked(ring, k).len() + ring(k + 1).len()) as int,
        ) == ring(k + 1),
        forall|i: int|
            stacked(ring, k).len() <= i < stacked(ring, k).len() + ring(k + 1).len()
                ==> #[trigger] stacked_labels(ring, n)[i] == k + 1,
    decreases n,
{
    lemma_stacked_len(ring, n);
    lemma_stacked_prefix(ring, k + 1, n);
    lemma_stacked_len(ring, k + 1);
    lemma_stacked_len(ring, k);
    let s = stacked(ring, n);
    let l = stacked_labels(ring, n);
    let m = stacked(ring, k).len() as int;
    let w = ring(k + 1).len() as int;
    assert(stacked(ring, k + 1) == stacked(ring, k) + ring(k + 1));
    assert(s.subrange(m, m + w) =~= stacked(ring, k + 1).subrange(m, m + w));
    assert forall|i: int| m <= i < m + w implies #[trigger] l[i] == k + 1 by {
        assert(l[i] == l.subrange(0, m + w)[i]);
        assert(stacked_labels(ring, k + 1)[i] == k + 1);
    }
    if n > 1 {
        if k < n - 1 {
            lemma_stacked_rings(ring, n - 1, k);
        } else {
            lemma_stacked_rings(ring, n - 1, 0);
        }
    }
    let before = stacked_labels(ring, n - 1);
    lemma_stacked_len(ring, n - 1);
    assert forall|i: int| 0 <= i < l.len() implies 1 <= #[trigger] l[i] <= n by {
        if i < before.len() {
            assert(l[i] == before[i]);
        } else {
            assert(l[i] == n as i32);
        }
    }
}

} // verus!

verus! {

/// The gap-filling walk visits every pixel of the midpoint walk from the
/// same state: for each midpoint pixel, an index of the fill walk holding it.
proof fn lemma_fill_walk_covers(r: int, x: int, y: int, d: int)
    ensures
        forall|i: int|
            0 <= i < octant_walk(x, y, d).len() ==> fill_walk(r, x, y, d).contains(
                #[trigger] octant_walk(x, y, d)[i],
            ),
    decreases y - x + 2,
{
    if x <= y {
        let n = walk_next(x, y, d);
        lemma_fill_walk_covers(r, n.0, n.1, n.2);
        let o = octant_walk(x, y, d);
        let f = fill_walk(r, x, y, d);
        let t = octant_walk(n.0, n.1, n.2);
        let g = fill_walk(r, n.0, n.1, n.2);
        let extra = if fill_extra(r, y, d) {
            seq![(x + 1, y)]
        } else {
            Seq::<(int, int)>::empty()
        };
        assert(o == seq![(x, y)] + t);
        assert(f == seq![(x, y)] + extra + g);
        assert forall|i: int| 0 <= i < o.len() implies f.contains(#[trigger] o[i]) by {
            if i == 0 {
                assert(f[0] == o[0]);
            } else {
                assert(o[i] == t[i - 1]);
                assert(g.contains(t[i - 1]));
                let j = choose|j: int| 0 <= j < g.len() && g[j] == t[i - 1];
                assert(f[1 + extra.len() + j] == g[j]);
            }
        }
    }
}

/// Law: the gap-filling ring of radius `r` holds every pixel of the
/// midpoint ring of radius `r` around the same center; the fill only adds
/// pixels.
pub proof fn lemma_fill_ring_covers_outline(cx: int, cy: int, r: int)
    ensures
        forall|k: int|
            0 <= k < circle_outline(cx, cy, r).len() ==> fill_ring_cells(cx, cy, r).contains(
                #[trigger] circle_outline(cx, cy, r)[k],
            ),
{
    let o = circle_octant(r);
    let f = fill_walk(r, 0, r, 1 - r);
    lemma_fill_walk_covers(r, 0, r, 1 - r);
    lemma_mirror8_all_index(cx, cy, o);
    lemma_mirror8_all_index(cx, cy, f);
    assert forall|k: int| 0 <= k < circle_outline(cx, cy, r).len() implies fill_ring_cells(
        cx,
        cy,
        r,
    ).contains(#[trigger] circle_outline(cx, cy, r)[k]) by {
        let i = k / 8;
        let m = k % 8;
        assert(f.contains(o[i]));
        let j = choose|j: int| 0 <= j < f.len() && f[j] == o[i];
        let c = fill_ring_cells(cx, cy, r);
        assert(c[8 * j + m] == mirror8(cx, cy, f[(8 * j + m) / 8].0, f[(8 * j + m) / 8].1)[(8 * j
            + m) % 8]);
        assert((8 * j + m) / 8 == j);
        assert((8 * j + m) % 8 == m);
    }
}

} // verus!

verus! {

/// Law: ring `k + 1` of the stacked midpoint outlines, taken from its
/// start, is exactly the midpoint circle of radius `k + 1` around the same
/// center (what `MidpointCircle` plots), all of it labelled `k + 1`.
pub proof fn lemma_gap_fill_ring_is_midpoint_circle(cx: int, cy: int, n: int, k: int)
    requires
        n <= i32::MAX,
        0 <= k < n,
    ensures
        ({
            let start = stacked(outline_ring(cx, cy), k).len() as int;
            let end = start + circle_outline(cx, cy, k + 1).len();
            &&& end <= ring_outlines(cx, cy, n).len()
            &&& ring_outlines(cx, cy, n).subrange(start, end) == circle_outline(cx, cy, k + 1)
            &&& stacked_labels(outline_ring(cx, cy), n).subrange(start, end) == Seq::new(
                circle_outline(cx, cy, k + 1).len(),
                |i: int| (k + 1) as i32,
            )
        }),
{
    let ring = outline_ring(cx, cy);
    lemma_stacked_rings(ring, n, k);
    assert(ring(k + 1) == circle_outline(cx, cy, k + 1));
    let start = stacked(ring, k).len() as int;
    let end = start + circle_outline(cx, cy, k + 1).len();
    assert(stacked_labels(ring, n).subrange(start, end) =~= Seq::new(
        circle_outline(cx, cy, k + 1).len(),
        |i: int| (k + 1) as i32,
    ));
}

} // verus!

verus! {

/// From an invariant state, the gap-filling walk holds the pixel `(x + 1, y)`
/// beside every south-east step of the midpoint walk from `(x, y)` whose
/// pixel `(x + 1, y)` lies within the circle of radius `r + 1/2`:
/// `(x + 1)² + y² + y < (r + 1)²`.
proof fn lemma_fill_walk_fills(r: int, x: int, y: int, d: int)
    requires
        walk_inv(r, x, y, d),
    ensures
        forall|i: int|
            0 <= i < octant_walk(x, y, d).len() - 1 ==> {
                let p = #[trigger] octant_walk(x, y, d)[i];
                octant_walk(x, y, d)[i + 1] == (p.0 + 1, p.1 - 1) && (p.0 + 1) * (p.0 + 1) + p.1
                    * p.1 + p.1 < (r + 1) * (r + 1) ==> fill_walk(r, x, y, d).contains(
                    (p.0 + 1, p.1),
                )
            },
    decreases y - x + 2,
{
    if x <= y {
        lemma_walk_step(r, x, y, d);
        let n = walk_next(x, y, d);
        lemma_fill_walk_fills(r, n.0, n.1, n.2);
        let o = octant_walk(x, y, d);
        let f = fill_walk(r, x, y, d);
        let t = octant_walk(n.0, n.1, n.2);
        let g = fill_walk(r, n.0, n.1, n.2);
        let extra = if fill_extra(r, y, d) {
            seq![(x + 1, y)]
        } else {
            Seq::<(int, int)>::empty()
        };
        assert(o == seq![(x, y)] + t);
        assert(f == seq![(x, y)] + extra + g);
        assert forall|i: int| 0 <= i < o.len() - 1 implies {
            let p = #[trigger] o[i];
            o[i + 1] == (p.0 + 1, p.1 - 1) && (p.0 + 1) * (p.0 + 1) + p.1 * p.1 + p.1 < (r + 1) * (
            r + 1) ==> f.contains((p.0 + 1, p.1))
        } by {
            let p = o[i];
            if o[i + 1] == (p.0 + 1, p.1 - 1) && (p.0 + 1) * (p.0 + 1) + p.1 * p.1 + p.1 < (r + 1)
                * (r + 1) {
                if i == 0 {
                    assert(p == (x, y));
                    assert(o[1] == t[0]);
                    assert(t[0] == (n.0, n.1));
                    assert(d >= 0);
                    assert(d + 2 * y - 2 * r - 1 == (x + 1) * (x + 1) + y * y + y - (r + 1) * (r
                        + 1)) by (nonlinear_arith)
                        requires
                            d == x * x + y * y - r * r + 2 * x + 1 - y,
                    ;
                    assert(fill_extra(r, y, d));
                    assert(f[1] == (x + 1, y));
                } else {
                    assert(o[i] == t[i - 1]);
                    assert(o[i + 1] == t[i]);
                    assert(g.contains((p.0 + 1, p.1)));
                    let j = choose|j: int| 0 <= j < g.len() && g[j] == (p.0 + 1, p.1);
                    assert(f[1 + extra.len() + j] == g[j]);
                }
            }
        }
    }
}

/// Law: the gap-filling ring of radius `r` closes the gaps of the midpoint
/// ring. Wherever the midpoint walk steps diagonally from the octant pixel
/// `(x, y)` and the pixel `(x + 1, y)` beside that step lies within the
/// circle of radius `r + 1/2` (`(x + 1)² + y² + y < (r + 1)²`), the fill
/// ring plots `(cx + x + 1, cy + y)`.
pub proof fn lemma_fill_ring_fills_gaps(cx: int, cy: int, r: int)
    requires
        r >= 0,
    ensures
        forall|i: int|
            0 <= i < circle_octant(r).len() - 1 ==> {
                let p = #[trigger] circle_octant(r)[i];
                circle_octant(r)[i + 1] == (p.0 + 1, p.1 - 1) && (p.0 + 1) * (p.0 + 1) + p.1 * p.1
                    + p.1 < (r + 1) * (r + 1) ==> fill_ring_cells(cx, cy, r).contains(
                    (cx + p.0 + 1, cy + p.1),
                )
            },
{
    let o = circle_octant(r);
    let f = fill_walk(r, 0, r, 1 - r);
    lemma_walk_start(r);
    lemma_fill_walk_fills(r, 0, r, 1 - r);
    lemma_mirror8_all_index(cx, cy, f);
    let c = fill_ring_cells(cx, cy, r);
    assert forall|i: int| 0 <= i < o.len() - 1 implies {
        let p = #[trigger] o[i];
        o[i + 1] == (p.0 + 1, p.1 - 1) && (p.0 + 1) * (p.0 + 1) + p.1 * p.1 + p.1 < (r + 1) * (r
            + 1) ==> c.contains((cx + p.0 + 1, cy + p.1))
    } by {
        let p = o[i];
        if o[i + 1] == (p.0 + 1, p.1 - 1) && (p.0 + 1) * (p.0 + 1) + p.1 * p.1 + p.1 < (r + 1) * (r
            + 1) {
            assert(f.contains((p.0 + 1, p.1)));
            let j = choose|j: int| 0 <= j < f.len() && f[j] == (p.0 + 1, p.1);
            assert(c[8 * j] == mirror8(cx, cy, f[(8 * j) / 8].0, f[(8 * j) / 8].1)[(8 * j) % 8]);
            assert((8 * j) / 8 == j);
            assert((8 * j) % 8 == 0);
        }
    }
}

} // verus!

verus! {

/// From an invariant state, every pixel of the gap-filling walk, walk
/// pixel or fill pixel, satisfies `x² + y² + y < (r + 1)²`.
proof fn lemma_fill_walk_inside(r: int, x: int, y: int, d: int)
    requires
        walk_inv(r, x, y, d),
    ensures
        forall|i: int|
            0 <= i < fill_walk(r, x, y, d).len() ==> {
                let p = #[trigger] fill_walk(r, x, y, d)[i];
                p.0 * p.0 + p.1 * p.1 + p.1 < (r + 1) * (r + 1)
            },
    decreases y - x + 2,
{
    if x <= y {
        lemma_walk_step(r, x, y, d);
        let n = walk_next(x, y, d);
        lemma_fill_walk_inside(r, n.0, n.1, n.2);
        let f = fill_walk(r, x, y, d);
        let g = fill_walk(r, n.0, n.1, n.2);
        let extra = if fill_extra(r, y, d) {
            seq![(x + 1, y)]
        } else {
            Seq::<(int, int)>::empty()
        };
        assert(f == seq![(x, y)] + extra + g);
        assert((r + 1) * (r + 1) == r * r + 2 * r + 1) by (nonlinear_arith);
        if r == 0 {
            assert(x == 0 && y == 0);
        }
        assert(x * x + y * y + y < (r + 1) * (r + 1));
        if fill_extra(r, y, d) {
            assert(d + 2 * y - 2 * r - 1 == (x + 1) * (x + 1) + y * y + y - (r + 1) * (r + 1))
                by (nonlinear_arith)
                requires
                    d == x * x + y * y - r * r + 2 * x + 1 - y,
            ;
        }
        assert forall|i: int| 0 <= i < f.len() implies {
            let p = #[trigger] f[i];
            p.0 * p.0 + p.1 * p.1 + p.1 < (r + 1) * (r + 1)
        } by {
            if i == 0 {
                assert(f[0] == (x, y));
            } else if i < 1 + extra.len() {
                assert(f[i] == (x + 1, y));
            } else {
                assert(f[i] == g[i - 1 - extra.len()]);
            }
        }
    }
}

/// Law: the gap-filling ring of radius `r` stays within half a cell of the
/// circle: every first-octant pixel `(x, y)` it plots, whether a pixel of
/// the midpoint walk or a fill pixel, satisfies `x² + y² + y < (r + 1)²`
/// (the midpoint `(x, y + 1/2)` lies inside the circle of radius `r + 1`).
pub proof fn lemma_fill_walk_within(r: int)
    requires
        r >= 0,
    ensures
        forall|i: int|
            0 <= i < fill_walk(r, 0, r, 1 - r).len() ==> {
                let p = #[trigger] fill_walk(r, 0, r, 1 - r)[i];
                p.0 * p.0 + p.1 * p.1 + p.1 < (r + 1) * (r + 1)
            },
{
    lemma_walk_start(r);
    lemma_fill_walk_inside(r, 0, r, 1 - r);
}

} // verus!

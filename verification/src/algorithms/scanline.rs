//! Horizontal spans: the scanline fill of the midpoint circle.
use vstd::prelude::*;

use crate::algorithms::circle_walk::{
    circle_octant, circle_outline, lemma_mirror8_all_index, mirror8, octant_walk, walk_next,
};
use crate::algorithms::{cell, cells, lemma_cells_push, lemma_contains_concat, Point};

verus! {

/// The cells `(a, row) ..= (b, row)`, from left to right; empty when `b < a`.
pub open spec fn span(row: int, a: int, b: int) -> Seq<(int, int)> {
    Seq::new(
        (if b >= a {
            b - a + 1
        } else {
            0
        }) as nat,
        |i: int| (a + i, row),
    )
}

/// The four spans filled for the octant pixel `(x, y)` around `(cx, cy)`.
pub open spec fn scan4(cx: int, cy: int, x: int, y: int) -> Seq<(int, int)> {
    span(cy + y, cx - x, cx + x) + span(cy - y, cx - x, cx + x) + span(cy + x, cx - y, cx + y)
        + span(cy - x, cx - y, cx + y)
}

/// The spans of every octant pixel of `s`, in order.
pub open spec fn scan_all(cx: int, cy: int, s: Seq<(int, int)>) -> Seq<(int, int)>
    decreases s.len(),
{
    if s.len() == 0 {
        Seq::empty()
    } else {
        scan4(cx, cy, s[0].0, s[0].1) + scan_all(cx, cy, s.drop_first())
    }
}

/// The cells of the scanline-filled circle of radius `r` around `(cx, cy)`.
pub open spec fn scanline_disc(cx: int, cy: int, r: int) -> Seq<(int, int)> {
    scan_all(cx, cy, circle_octant(r))
}

/// Advancing the walk moves the spans of its pixel to the part filled.
pub proof fn lemma_scan_advance(
    cx: int,
    cy: int,
    x: int,
    y: int,
    d: int,
    done: Seq<(int, int)>,
    whole: Seq<(int, int)>,
)
    requires
        x <= y,
        done + scan_all(cx, cy, octant_walk(x, y, d)) == whole,
    ensures
        (done + span(cy + y, cx - x, cx + x) + span(cy - y, cx - x, cx + x) + span(
            cy + x,
            cx - y,
            cx + y,
        ) + span(cy - x, cx - y, cx + y)) + scan_all(
            cx,
            cy,
            octant_walk(walk_next(x, y, d).0, walk_next(x, y, d).1, walk_next(x, y, d).2),
        ) == whole,
{
    let n = walk_next(x, y, d);
    let t = octant_walk(x, y, d);
    assert(t == seq![(x, y)] + octant_walk(n.0, n.1, n.2));
    assert(t[0] == (x, y));
    assert(t.drop_first() =~= octant_walk(n.0, n.1, n.2));
    assert((done + span(cy + y, cx - x, cx + x) + span(cy - y, cx - x, cx + x) + span(
        cy + x,
        cx - y,
        cx + y,
    ) + span(cy - x, cx - y, cx + y)) + scan_all(cx, cy, octant_walk(n.0, n.1, n.2)) =~= done
        + scan_all(cx, cy, t));
}

/// Append the cells `(x_start, row) ..= (x_end, row)`.
pub fn push_span(points: &mut Vec<Point>, row: i32, x_start: i32, x_end: i32)
    ensures
        cells(final(points)@) == cells(old(points)@) + span(row as int, x_start as int, x_end as int),
{
    let ghost start = cells(points@);
    if x_start > x_end {
        assert(cells(points@) =~= start + span(row as int, x_start as int, x_end as int));
        return;
    }
    let mut px: i32 = x_start;
    assert(cells(points@) =~= start + span(row as int, x_start as int, px - 1));
    loop
        invariant_except_break
            x_start <= px <= x_end,
            cells(points@) == start + span(row as int, x_start as int, px - 1),
        ensures
            cells(points@) == start + span(row as int, x_start as int, x_end as int),
        decreases x_end - px,
    {
        let ghost before = points@;
        let p = Point { x: px, y: row };
        points.push(p);
        proof {
            lemma_cells_push(before, p);
            assert(cells(points@) =~= start + span(row as int, x_start as int, px as int));
        }
        if px == x_end {
            break;
        }
        px = px + 1;
    }
}

} // verus!

verus! {

/// A span holds both of its end cells.
proof fn lemma_span_ends(row: int, a: int, b: int)
    requires
        a <= b,
    ensures
        span(row, a, b).contains((a, row)),
        span(row, a, b).contains((b, row)),
{
    assert(span(row, a, b)[0] == (a, row));
    assert(span(row, a, b)[b - a] == (b, row));
}

/// The walk from a state with `x >= 0` visits only pixels with
/// `0 <= x <= y`.
proof fn lemma_octant_walk_pixels(x: int, y: int, d: int)
    requires
        0 <= x,
    ensures
        forall|i: int|
            0 <= i < octant_walk(x, y, d).len() ==> 0 <= (#[trigger] octant_walk(x, y, d)[i]).0
                <= octant_walk(x, y, d)[i].1,
    decreases y - x + 2,
{
    if x <= y {
        let n = walk_next(x, y, d);
        lemma_octant_walk_pixels(n.0, n.1, n.2);
        let w = octant_walk(x, y, d);
        let t = octant_walk(n.0, n.1, n.2);
        assert(w == seq![(x, y)] + t);
        assert forall|i: int| 0 <= i < w.len() implies 0 <= (#[trigger] w[i]).0 <= w[i].1 by {
            if i > 0 {
                assert(w[i] == t[i - 1]);
            }
        }
    }
}

/// The four spans of the octant pixel `(x, y)` hold its eight images.
proof fn lemma_scan4_holds_images(cx: int, cy: int, x: int, y: int, j: int)
    requires
        0 <= x <= y,
        0 <= j < 8,
    ensures
        scan4(cx, cy, x, y).contains(mirror8(cx, cy, x, y)[j]),
{
    let a = span(cy + y, cx - x, cx + x);
    let b = span(cy - y, cx - x, cx + x);
    let c = span(cy + x, cx - y, cx + y);
    let d = span(cy - x, cx - y, cx + y);
    lemma_span_ends(cy + y, cx - x, cx + x);
    lemma_span_ends(cy - y, cx - x, cx + x);
    lemma_span_ends(cy + x, cx - y, cx + y);
    lemma_span_ends(cy - x, cx - y, cx + y);
    let m = mirror8(cx, cy, x, y)[j];
    lemma_contains_concat(a, b, m);
    lemma_contains_concat(a + b, c, m);
    lemma_contains_concat(a + b + c, d, m);
}

/// The spans of a sequence of octant pixels hold the spans of each pixel.
proof fn lemma_scan_all_holds(cx: int, cy: int, s: Seq<(int, int)>, i: int, c: (int, int))
    requires
        0 <= i < s.len(),
        scan4(cx, cy, s[i].0, s[i].1).contains(c),
    ensures
        scan_all(cx, cy, s).contains(c),
    decreases s.len(),
{
    let h = scan4(cx, cy, s[0].0, s[0].1);
    let t = s.drop_first();
    if i == 0 {
        lemma_contains_concat(h, scan_all(cx, cy, t), c);
    } else {
        assert(t[i - 1] == s[i]);
        lemma_scan_all_holds(cx, cy, t, i - 1, c);
        lemma_contains_concat(h, scan_all(cx, cy, t), c);
    }
}

/// Law: the scanline fill of the circle of radius `r` covers every pixel of
/// the midpoint outline of that circle.
pub proof fn lemma_scanline_covers_outline(cx: int, cy: int, r: int)
    ensures
        forall|k: int|
            0 <= k < circle_outline(cx, cy, r).len() ==> scanline_disc(cx, cy, r).contains(
                #[trigger] circle_outline(cx, cy, r)[k],
            ),
{
    let s = circle_octant(r);
    lemma_octant_walk_pixels(0, r, 1 - r);
    lemma_mirror8_all_index(cx, cy, s);
    assert forall|k: int| 0 <= k < circle_outline(cx, cy, r).len() implies scanline_disc(
        cx,
        cy,
        r,
    ).contains(#[trigger] circle_outline(cx, cy, r)[k]) by {
        let i = k / 8;
        let j = k % 8;
        assert(0 <= s[i].0 <= s[i].1);
        lemma_scan4_holds_images(cx, cy, s[i].0, s[i].1, j);
        lemma_scan_all_holds(cx, cy, s, i, mirror8(cx, cy, s[i].0, s[i].1)[j]);
    }
}

} // verus!

verus! {

/// A span centered on column `cx` holds every cell of its row within its
/// half-width of the center.
proof fn lemma_span_solid(row: int, cx: int, w: int, u: int)
    requires
        0 <= w,
        cx - w <= u <= cx + w,
    ensures
        span(row, cx - w, cx + w).contains((u, row)),
{
    assert(span(row, cx - w, cx + w)[u - (cx - w)] == (u, row));
}

/// `|v|`.
pub open spec fn magnitude(v: int) -> int {
    if v < 0 {
        -v
    } else {
        v
    }
}

/// With a cell of `s` at column offset `u` from `cx`, `s` holds every cell
/// of that row within `|u|` of column `cx`.
pub open spec fn rows_solid(s: Seq<(int, int)>, cx: int) -> bool {
    forall|k: int, u: int|
        0 <= k < s.len() && cx - magnitude(s[k].0 - cx) <= u <= cx + magnitude(s[k].0 - cx)
            ==> #[trigger] s.contains((u, s[k].1))
}

/// The four spans of an octant pixel are rows solid about the center.
proof fn lemma_scan4_solid(cx: int, cy: int, x: int, y: int, k: int, u: int)
    requires
        0 <= x <= y,
        0 <= k < scan4(cx, cy, x, y).len(),
        cx - magnitude(scan4(cx, cy, x, y)[k].0 - cx) <= u <= cx + magnitude(
            scan4(cx, cy, x, y)[k].0 - cx,
        ),
    ensures
        scan4(cx, cy, x, y).contains((u, scan4(cx, cy, x, y)[k].1)),
{
    let a = span(cy + y, cx - x, cx + x);
    let b = span(cy - y, cx - x, cx + x);
    let c = span(cy + x, cx - y, cx + y);
    let d = span(cy - x, cx - y, cx + y);
    let t = scan4(cx, cy, x, y);
    assert(t == a + b + c + d);
    let p = t[k];
    if k < a.len() {
        assert(p == a[k]);
        lemma_span_solid(cy + y, cx, x, u);
        lemma_contains_concat(a, b, (u, p.1));
        lemma_contains_concat(a + b, c, (u, p.1));
        lemma_contains_concat(a + b + c, d, (u, p.1));
    } else if k < a.len() + b.len() {
        assert(p == b[k - a.len()]);
        lemma_span_solid(cy - y, cx, x, u);
        lemma_contains_concat(a, b, (u, p.1));
        lemma_contains_concat(a + b, c, (u, p.1));
        lemma_contains_concat(a + b + c, d, (u, p.1));
    } else if k < a.len() + b.len() + c.len() {
        assert(p == c[k - a.len() - b.len()]);
        lemma_span_solid(cy + x, cx, y, u);
        lemma_contains_concat(a + b, c, (u, p.1));
        lemma_contains_concat(a + b + c, d, (u, p.1));
    } else {
        assert(p == d[k - a.len() - b.len() - c.len()]);
        lemma_span_solid(cy - x, cx, y, u);
        lemma_contains_concat(a + b + c, d, (u, p.1));
    }
}

/// The spans of octant pixels with `0 <= x <= y` are rows solid about the
/// center.
proof fn lemma_scan_all_solid(cx: int, cy: int, s: Seq<(int, int)>, k: int, u: int)
    requires
        forall|i: int| 0 <= i < s.len() ==> 0 <= (#[trigger] s[i]).0 <= s[i].1,
        0 <= k < scan_all(cx, cy, s).len(),
        cx - magnitude(scan_all(cx, cy, s)[k].0 - cx) <= u <= cx + magnitude(
            scan_all(cx, cy, s)[k].0 - cx,
        ),
    ensures
        scan_all(cx, cy, s).contains((u, scan_all(cx, cy, s)[k].1)),
    decreases s.len(),
{
    let h = scan4(cx, cy, s[0].0, s[0].1);
    let t = s.drop_first();
    let rest = scan_all(cx, cy, t);
    let all = scan_all(cx, cy, s);
    assert(all == h + rest);
    assert(0 <= s[0].0 <= s[0].1);
    if k < h.len() {
        assert(all[k] == h[k]);
        lemma_scan4_solid(cx, cy, s[0].0, s[0].1, k, u);
        lemma_contains_concat(h, rest, (u, all[k].1));
    } else {
        assert(all[k] == rest[k - h.len()]);
        assert forall|i: int| 0 <= i < t.len() implies 0 <= (#[trigger] t[i]).0 <= t[i].1 by {
            assert(t[i] == s[i + 1]);
        }
        lemma_scan_all_solid(cx, cy, t, k - h.len(), u);
        lemma_contains_concat(h, rest, (u, all[k].1));
    }
}

/// Law: every row of the scanline fill is solid about the center column:
/// with a cell at column offset `u` from the center, the fill holds every
/// cell of that row within `|u|` of the center, so no row has a hole.
pub proof fn lemma_scanline_rows_solid(cx: int, cy: int, r: int)
    ensures
        rows_solid(scanline_disc(cx, cy, r), cx),
{
    let s = circle_octant(r);
    let f = scanline_disc(cx, cy, r);
    lemma_octant_walk_pixels(0, r, 1 - r);
    assert forall|k: int, u: int|
        0 <= k < f.len() && cx - magnitude(f[k].0 - cx) <= u <= cx + magnitude(f[k].0 - cx)
        implies #[trigger] f.contains((u, f[k].1)) by {
        lemma_scan_all_solid(cx, cy, s, k, u);
    }
}

} // verus!

verus! {

/// Cell `c` lies on span `q` (of the four) filled for the octant pixel `p`:
/// on the row of images `2q + 1` and `2q`, between them.
pub open spec fn in_span_of(cx: int, cy: int, p: (int, int), q: int, c: (int, int)) -> bool {
    let m = mirror8(cx, cy, p.0, p.1);
    &&& 0 <= q < 4
    &&& m[2 * q].1 == c.1
    &&& m[2 * q + 1].1 == c.1
    &&& m[2 * q + 1].0 <= c.0 <= m[2 * q].0
}

/// Every cell of the four spans of an octant pixel lies on one of them.
proof fn lemma_scan4_locate(cx: int, cy: int, x: int, y: int, k: int)
    requires
        0 <= x <= y,
        0 <= k < scan4(cx, cy, x, y).len(),
    ensures
        exists|q: int| #[trigger] in_span_of(cx, cy, (x, y), q, scan4(cx, cy, x, y)[k]),
{
    let a = span(cy + y, cx - x, cx + x);
    let b = span(cy - y, cx - x, cx + x);
    let c = span(cy + x, cx - y, cx + y);
    let d = span(cy - x, cx - y, cx + y);
    let t = scan4(cx, cy, x, y);
    assert(t == a + b + c + d);
    if k < a.len() {
        assert(t[k] == a[k]);
        assert(in_span_of(cx, cy, (x, y), 0, t[k]));
    } else if k < a.len() + b.len() {
        assert(t[k] == b[k - a.len()]);
        assert(in_span_of(cx, cy, (x, y), 1, t[k]));
    } else if k < a.len() + b.len() + c.len() {
        assert(t[k] == c[k - a.len() - b.len()]);
        assert(in_span_of(cx, cy, (x, y), 2, t[k]));
    } else {
        assert(t[k] == d[k - a.len() - b.len() - c.len()]);
        assert(in_span_of(cx, cy, (x, y), 3, t[k]));
    }
}

/// Every cell of the spans of a sequence of octant pixels lies on one of
/// the spans of one of its pixels.
proof fn lemma_scan_all_locate(cx: int, cy: int, s: Seq<(int, int)>, k: int)
    requires
        forall|i: int| 0 <= i < s.len() ==> 0 <= (#[trigger] s[i]).0 <= s[i].1,
        0 <= k < scan_all(cx, cy, s).len(),
    ensures
        exists|i: int, q: int|
            0 <= i < s.len() && #[trigger] in_span_of(cx, cy, s[i], q, scan_all(cx, cy, s)[k]),
    decreases s.len(),
{
    let h = scan4(cx, cy, s[0].0, s[0].1);
    let t = s.drop_first();
    let rest = scan_all(cx, cy, t);
    let all = scan_all(cx, cy, s);
    assert(all == h + rest);
    assert(0 <= s[0].0 <= s[0].1);
    if k < h.len() {
        assert(all[k] == h[k]);
        lemma_scan4_locate(cx, cy, s[0].0, s[0].1, k);
        let q = choose|q: int| #[trigger] in_span_of(cx, cy, (s[0].0, s[0].1), q, h[k]);
        assert(in_span_of(cx, cy, s[0], q, all[k]));
    } else {
        assert(all[k] == rest[k - h.len()]);
        assert forall|i: int| 0 <= i < t.len() implies 0 <= (#[trigger] t[i]).0 <= t[i].1 by {
            assert(t[i] == s[i + 1]);
        }
        lemma_scan_all_locate(cx, cy, t, k - h.len());
        let (i, q) = choose|i: int, q: int|
            0 <= i < t.len() && #[trigger] in_span_of(cx, cy, t[i], q, rest[k - h.len()]);
        assert(t[i] == s[i + 1]);
        assert(in_span_of(cx, cy, s[i + 1], q, all[k]));
    }
}

/// Cell `c` lies on its row between two cells of `o` that sit symmetrically
/// about column `cx`.
pub open spec fn bracketed(o: Seq<(int, int)>, c: (int, int), cx: int) -> bool {
    exists|j: int, m: int|
        #![trigger o[j], o[m]]
        0 <= j < o.len() && 0 <= m < o.len() && o[j].1 == c.1 && o[m].1 == c.1 && o[j].0 <= c.0
            <= o[m].0 && o[j].0 + o[m].0 == 2 * cx
}

/// Law: the scanline fill stays within the outline: every filled cell lies
/// on its row between two pixels of the midpoint outline that sit
/// symmetrically about the center column.
pub proof fn lemma_scanline_within_outline(cx: int, cy: int, r: int)
    ensures
        forall|k: int|
            0 <= k < scanline_disc(cx, cy, r).len() ==> bracketed(
                circle_outline(cx, cy, r),
                #[trigger] scanline_disc(cx, cy, r)[k],
                cx,
            ),
{
    let s = circle_octant(r);
    let f = scanline_disc(cx, cy, r);
    let o = circle_outline(cx, cy, r);
    lemma_octant_walk_pixels(0, r, 1 - r);
    lemma_mirror8_all_index(cx, cy, s);
    assert forall|k: int| 0 <= k < f.len() implies bracketed(o, #[trigger] f[k], cx) by {
        lemma_scan_all_locate(cx, cy, s, k);
        let (i, q) = choose|i: int, q: int|
            0 <= i < s.len() && #[trigger] in_span_of(cx, cy, s[i], q, f[k]);
        let j = 8 * i + 2 * q + 1;
        let m = 8 * i + 2 * q;
        assert(j / 8 == i && j % 8 == 2 * q + 1);
        assert(m / 8 == i && m % 8 == 2 * q);
        assert(o[j] == mirror8(cx, cy, s[i].0, s[i].1)[2 * q + 1]);
        assert(o[m] == mirror8(cx, cy, s[i].0, s[i].1)[2 * q]);
    }
}

} // verus!

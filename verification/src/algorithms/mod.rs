//! The rasterisation algorithms and the data they share.
use vstd::prelude::*;

pub mod circle;
pub mod ellipse;
pub mod line;
pub mod midpoint_circle;
pub mod parallel_midpoint_circle;
pub mod baseline_circle;
pub mod cell_text;
pub mod circle_walk;
pub mod disc;
pub mod duplicates;
pub mod ellipse_walk;
pub mod filled_midpoint_circle_real;
pub mod gap_fill_circle;
pub mod gap_fill_ellipse;
pub mod ranges;
pub mod ring_steps;
pub mod roland_fill_ellipse;
pub mod roland_walk;
pub mod scanline;
pub mod scanline_circle;
pub mod sitaraman_fill_circle;
pub mod virtual_walk;

verus! {

/// A grid cell addressed by integer coordinates.
#[derive(Clone, Copy, Debug, Hash, PartialEq, Eq, Structural)]
pub struct Point {
    pub x: i32,
    pub y: i32,
}

impl Default for Point {
    fn default() -> (p: Point)
        ensures
            p.x == 0 && p.y == 0,
    {
        Point { x: 0, y: 0 }
    }
}

/// The cell of a point as a pair of mathematical integers.
pub open spec fn cell(p: Point) -> (int, int) {
    (p.x as int, p.y as int)
}

/// The cells of a sequence of points, in order.
pub open spec fn cells(ps: Seq<Point>) -> Seq<(int, int)> {
    ps.map_values(|p: Point| cell(p))
}

/// `v` is representable as an `i32`.
pub open spec fn fits_i32(v: int) -> bool {
    i32::MIN <= v <= i32::MAX
}

/// A cell of either part is a cell of the concatenation.
pub proof fn lemma_contains_concat(a: Seq<(int, int)>, b: Seq<(int, int)>, c: (int, int))
    ensures
        a.contains(c) ==> (a + b).contains(c),
        b.contains(c) ==> (a + b).contains(c),
{
    if a.contains(c) {
        let i = choose|i: int| 0 <= i < a.len() && a[i] == c;
        assert((a + b)[i] == c);
    }
    if b.contains(c) {
        let i = choose|i: int| 0 <= i < b.len() && b[i] == c;
        assert((a + b)[a.len() + i] == c);
    }
}

/// Appending one point appends its cell.
pub proof fn lemma_cells_push(ps: Seq<Point>, p: Point)
    ensures
        cells(ps.push(p)) == cells(ps).push(cell(p)),
{
    assert(cells(ps.push(p)) =~= cells(ps).push(cell(p)));
}

} // verus!

verus! {

/// Append `count` copies of `value`.
pub fn push_repeated(v: &mut Vec<i32>, value: i32, count: usize)
    ensures
        final(v)@ == old(v)@ + Seq::new(count as nat, |i: int| value),
{
    let mut k: usize = 0;
    while k < count
        invariant
            k <= count,
            v@ == old(v)@ + Seq::new(k as nat, |i: int| value),
        decreases count - k,
    {
        v.push(value);
        k = k + 1;
        assert(v@ =~= old(v)@ + Seq::new(k as nat, |i: int| value));
    }
}

} // verus!

//! Locating a cell among the concentric rings of a ring-by-ring fill: which
//! ring plotted it first, and at which step of that ring.
use vstd::prelude::*;

use crate::algorithms::circle_walk::{stacked, stacked_starts};
use crate::algorithms::{cell, cells, Point};

verus! {

/// The first index from `k` on at which `s` holds `c`, or `-1`.
pub open spec fn first_match(s: Seq<(int, int)>, c: (int, int), k: int) -> int
    decreases s.len() - k,
{
    if k < 0 || k >= s.len() {
        -1
    } else if s[k] == c {
        k
    } else {
        first_match(s, c, k + 1)
    }
}

/// The first ring index from `k` on whose start lies after pixel `i`, or the
/// number of rings.
pub open spec fn first_start_after(starts: Seq<usize>, i: int, k: int) -> int
    decreases starts.len() - k,
{
    if k < 0 || k >= starts.len() {
        starts.len() as int
    } else if starts[k] > i {
        k
    } else {
        first_start_after(starts, i, k + 1)
    }
}

/// The ring index (from 0) that holds pixel `i`.
pub open spec fn ring_index_of(starts: Seq<usize>, i: int) -> int {
    first_start_after(starts, i, 1) - 1
}

/// For the first pixel at cell `c`: its step within its ring (from 1) and
/// the number of its ring (from 1); `None` when no pixel is at `c`.
pub open spec fn step_and_ring(s: Seq<(int, int)>, starts: Seq<usize>, c: (int, int)) -> Option<
    (int, int),
> {
    let i = first_match(s, c, 0);
    if i < 0 {
        None
    } else {
        let k = ring_index_of(starts, i);
        Some((i - starts[k] + 1, k + 1))
    }
}

/// The ring starts make every lookup in `points` well defined: there is a
/// first ring starting at pixel 0 whenever there is any pixel.
pub open spec fn starts_cover(n_points: int, starts: Seq<usize>) -> bool {
    n_points > 0 ==> starts.len() > 0 && starts[0] == 0
}

proof fn lemma_first_match_range(s: Seq<(int, int)>, c: (int, int), k: int)
    requires
        0 <= k,
    ensures
        first_match(s, c, k) == -1 || (k <= first_match(s, c, k) < s.len() && s[first_match(
            s,
            c,
            k,
        )] == c),
    decreases s.len() - k,
{
    if k < s.len() && s[k] != c {
        lemma_first_match_range(s, c, k + 1);
    }
}

proof fn lemma_first_start_after_range(starts: Seq<usize>, i: int, k: int)
    requires
        1 <= k,
    ensures
        k <= first_start_after(starts, i, k) <= starts.len() || (k > starts.len()
            && first_start_after(starts, i, k) == starts.len()),
        forall|j: int| k <= j < first_start_after(starts, i, k) ==> starts[j] <= i,
    decreases starts.len() - k,
{
    if k < starts.len() && starts[k] <= i {
        lemma_first_start_after_range(starts, i, k + 1);
    }
}

/// Find the first pixel at `(cx, cy)` and report its step within its ring and
/// the number of its ring.
pub fn locate_step(points: &Vec<Point>, starts: &Vec<usize>, cx: i32, cy: i32) -> (res: Option<
    (usize, usize),
>)
    requires
        starts_cover(points@.len() as int, starts@),
    ensures
        match step_and_ring(cells(points@), starts@, (cx as int, cy as int)) {
            None => res is None,
            Some((step, ring)) => res matches Some((s, g)) && s == step && g == ring,
        },
{
    let n = points.len();
    let ghost s = cells(points@);
    let ghost c = (cx as int, cy as int);
    let mut i: usize = 0;
    while i < n
        invariant
            n == points@.len(),
            s == cells(points@),
            c == (cx as int, cy as int),
            i <= n,
            first_match(s, c, 0) == first_match(s, c, i as int),
            starts_cover(n as int, starts@),
        decreases n - i,
    {
        assert(s[i as int] == cell(points@[i as int]));
        if points[i].x == cx && points[i].y == cy {
            assert(s[i as int] == c);
            assert(first_match(s, c, i as int) == i);
            proof {
                lemma_first_start_after_range(starts@, i as int, 1);
            }
            let m = starts.len();
            assert(m >= 1);
            let mut k: usize = 1;
            while k < m && starts[k] <= i
                invariant
                    m == starts@.len(),
                    1 <= k,
                    k <= m,
                    first_start_after(starts@, i as int, 1) == first_start_after(
                        starts@,
                        i as int,
                        k as int,
                    ),
                    forall|j: int| 1 <= j < k ==> starts@[j] <= i,
                decreases m - k,
            {
                k = k + 1;
            }
            let found = if k < m {
                k
            } else {
                m
            };
            let ring_index = found - 1;
            let step = i - starts[ring_index] + 1;
            return Some((step, ring_index + 1));
        }
        assert(s[i as int] != c);
        i = i + 1;
    }
    None
}

} // verus!

verus! {

/// Rings stacked for radius `1 ..= n` start at pixel 0 whenever there is a
/// pixel at all.
pub proof fn lemma_stacked_starts_cover(ring: spec_fn(int) -> Seq<(int, int)>, n: int)
    ensures
        starts_cover(stacked(ring, n).len() as int, stacked_starts(ring, n)),
{
    if n <= 0 {
        assert(stacked(ring, n) == Seq::<(int, int)>::empty());
    } else {
        assert(stacked_starts(ring, n)[0] == stacked(ring, 0).len() as usize);
    }
}

} // verus!

//! Detection of cells that a rasteriser plots more than once.
use vstd::prelude::*;

use crate::algorithms::{cell, cells, Point};

verus! {

/// The cell at index `i` of `s` also occurs at another index.
pub open spec fn is_repeated(s: Seq<(int, int)>, i: int) -> bool {
    exists|j: int| 0 <= j < s.len() && j != i && #[trigger] s[j] == s[i]
}

/// Whether the point at index `i` shares its cell with another point.
pub fn repeated_at(points: &Vec<Point>, i: usize) -> (b: bool)
    requires
        i < points@.len(),
    ensures
        b == is_repeated(cells(points@), i as int),
{
    let n = points.len();
    let px = points[i].x;
    let py = points[i].y;
    let mut j: usize = 0;
    while j < n
        invariant
            n == points@.len(),
            i < n,
            px == points@[i as int].x,
            py == points@[i as int].y,
            j <= n,
            forall|k: int|
                0 <= k < j && k != i ==> #[trigger] cells(points@)[k] != cells(points@)[i as int],
        decreases n - j,
    {
        if j != i && points[j].x == px && points[j].y == py {
            assert(cells(points@)[j as int] == cells(points@)[i as int]);
            return true;
        }
        j = j + 1;
    }
    assert forall|k: int|
        0 <= k < cells(points@).len() && k != i implies #[trigger] cells(points@)[k] != cells(
        points@,
    )[i as int] by {}
    false
}

/// For every point, whether it shares its cell with another point.
pub fn repeated_flags(points: &Vec<Point>) -> (flags: Vec<bool>)
    ensures
        flags@.len() == points@.len(),
        forall|i: int|
            0 <= i < flags@.len() ==> #[trigger] flags@[i] == is_repeated(cells(points@), i),
{
    let n = points.len();
    let mut flags: Vec<bool> = Vec::new();
    let mut i: usize = 0;
    while i < n
        invariant
            n == points@.len(),
            i <= n,
            flags@.len() == i,
            forall|k: int| 0 <= k < i ==> #[trigger] flags@[k] == is_repeated(cells(points@), k),
        decreases n - i,
    {
        let b = repeated_at(points, i);
        flags.push(b);
        i = i + 1;
    }
    flags
}

/// A duplicate-flag cache that is either empty or agrees with `points`.
pub open spec fn cache_agrees(cache: Option<Vec<bool>>, points: Seq<Point>) -> bool {
    match cache {
        None => true,
        Some(flags) => {
            &&& flags@.len() == points.len()
            &&& forall|i: int|
                0 <= i < points.len() ==> #[trigger] flags@[i] == is_repeated(cells(points), i)
        },
    }
}

/// Whether point `i` is repeated, read from the cache when it holds flags.
pub fn repeated_cached(cache: &Option<Vec<bool>>, points: &Vec<Point>, i: usize) -> (b: bool)
    requires
        cache_agrees(*cache, points@),
        i < points@.len(),
    ensures
        b == is_repeated(cells(points@), i as int),
{
    match cache {
        Some(flags) => flags[i],
        None => repeated_at(points, i),
    }
}

} // verus!

//! The lattice disc scanned by the brute-force baseline circle.
use vstd::prelude::*;

use crate::algorithms::fits_i32;

verus! {

/// The cells of row `dy` of the disc of radius `r`, from column offset `dx`
/// up to `r`, in increasing column order.
pub open spec fn disc_row(cx: int, cy: int, r: int, dy: int, dx: int) -> Seq<(int, int)>
    decreases r - dx + 1,
{
    if dx > r {
        Seq::empty()
    } else {
        (if dx * dx + dy * dy <= r * r {
            seq![(cx + dx, cy + dy)]
        } else {
            Seq::empty()
        }) + disc_row(cx, cy, r, dy, dx + 1)
    }
}

/// The rows of the disc from row offset `dy` up to `r`.
pub open spec fn disc_rows(cx: int, cy: int, r: int, dy: int) -> Seq<(int, int)>
    decreases r - dy + 1,
{
    if dy > r {
        Seq::empty()
    } else {
        disc_row(cx, cy, r, dy, -r) + disc_rows(cx, cy, r, dy + 1)
    }
}

/// Every lattice cell of the disc of radius `r` around `(cx, cy)`, row by row
/// from the bottom, each row from the left.
pub open spec fn disc_cells(cx: int, cy: int, r: int) -> Seq<(int, int)> {
    disc_rows(cx, cy, r, -r)
}

/// The bounding-square scan of radius `r` around `(cx, cy)` runs without
/// overflow: `r²` and every `dx² + dy²` of the square fit in an `i32`, and so
/// do the coordinates of every cell.
pub open spec fn baseline_fits(cx: int, cy: int, r: int) -> bool {
    &&& -46340 <= r <= 32767
    &&& r >= 0 ==> fits_i32(cx - r) && fits_i32(cx + r) && fits_i32(cy - r) && fits_i32(cy + r)
}

/// Cell `p` comes strictly before cell `q` in row-major order.
pub open spec fn row_major_lt(p: (int, int), q: (int, int)) -> bool {
    p.1 < q.1 || (p.1 == q.1 && p.0 < q.0)
}

/// The cells of `s` are in strictly increasing row-major order.
pub open spec fn row_major_sorted(s: Seq<(int, int)>) -> bool {
    forall|i: int, j: int| 0 <= i < j < s.len() ==> row_major_lt(#[trigger] s[i], #[trigger] s[j])
}

/// Concatenating two sorted sequences, the first wholly before the second,
/// gives a sorted sequence.
pub proof fn lemma_sorted_concat(a: Seq<(int, int)>, b: Seq<(int, int)>)
    requires
        row_major_sorted(a),
        row_major_sorted(b),
        forall|i: int, j: int|
            0 <= i < a.len() && 0 <= j < b.len() ==> row_major_lt(#[trigger] a[i], #[trigger] b[j]),
    ensures
        row_major_sorted(a + b),
{
    let s = a + b;
    assert forall|i: int, j: int| 0 <= i < j < s.len() implies row_major_lt(
        #[trigger] s[i],
        #[trigger] s[j],
    ) by {
        if j < a.len() {
            assert(s[i] == a[i] && s[j] == a[j]);
        } else if i >= a.len() {
            assert(s[i] == b[i - a.len()] && s[j] == b[j - a.len()]);
        } else {
            assert(s[i] == a[i] && s[j] == b[j - a.len()]);
        }
    }
}

/// What a row holds, and in which order.
pub proof fn lemma_disc_row(cx: int, cy: int, r: int, dy: int, dx: int)
    ensures
        forall|p: (int, int)|
            disc_row(cx, cy, r, dy, dx).contains(p) <==> {
                &&& p.1 == cy + dy
                &&& dx <= p.0 - cx <= r
                &&& (p.0 - cx) * (p.0 - cx) + dy * dy <= r * r
            },
        row_major_sorted(disc_row(cx, cy, r, dy, dx)),
    decreases r - dx + 1,
{
    if dx <= r {
        lemma_disc_row(cx, cy, r, dy, dx + 1);
        let head: Seq<(int, int)> = if dx * dx + dy * dy <= r * r {
            seq![(cx + dx, cy + dy)]
        } else {
            Seq::empty()
        };
        let tail = disc_row(cx, cy, r, dy, dx + 1);
        let s = disc_row(cx, cy, r, dy, dx);
        assert(s == head + tail);
        assert forall|p: (int, int)| s.contains(p) <==> {
            &&& p.1 == cy + dy
            &&& dx <= p.0 - cx <= r
            &&& (p.0 - cx) * (p.0 - cx) + dy * dy <= r * r
        } by {
            if s.contains(p) {
                let k = choose|k: int| 0 <= k < s.len() && s[k] == p;
                if k >= head.len() {
                    assert(tail[k - head.len()] == p);
                    assert(tail.contains(p));
                }
            }
            if p.1 == cy + dy && dx <= p.0 - cx <= r && (p.0 - cx) * (p.0 - cx) + dy * dy <= r
                * r {
                if p.0 - cx == dx {
                    assert(s[0] == p);
                } else {
                    assert(tail.contains(p));
                    let k = choose|k: int| 0 <= k < tail.len() && tail[k] == p;
                    assert(s[k + head.len()] == p);
                }
            }
        }
        assert forall|i: int, j: int| 0 <= i < head.len() && 0 <= j < tail.len() implies row_major_lt(
            #[trigger] head[i],
            #[trigger] tail[j],
        ) by {
            assert(tail.contains(tail[j]));
        }
        lemma_sorted_concat(head, tail);
    }
}

/// What the rows from `dy` on hold, and in which order.
pub proof fn lemma_disc_rows(cx: int, cy: int, r: int, dy: int)
    ensures
        forall|p: (int, int)|
            disc_rows(cx, cy, r, dy).contains(p) <==> {
                &&& dy <= p.1 - cy <= r
                &&& -r <= p.0 - cx <= r
                &&& (p.0 - cx) * (p.0 - cx) + (p.1 - cy) * (p.1 - cy) <= r * r
            },
        row_major_sorted(disc_rows(cx, cy, r, dy)),
    decreases r - dy + 1,
{
    if dy <= r {
        lemma_disc_row(cx, cy, r, dy, -r);
        lemma_disc_rows(cx, cy, r, dy + 1);
        let head = disc_row(cx, cy, r, dy, -r);
        let tail = disc_rows(cx, cy, r, dy + 1);
        let s = disc_rows(cx, cy, r, dy);
        assert(s == head + tail);
        assert forall|p: (int, int)| s.contains(p) <==> {
            &&& dy <= p.1 - cy <= r
            &&& -r <= p.0 - cx <= r
            &&& (p.0 - cx) * (p.0 - cx) + (p.1 - cy) * (p.1 - cy) <= r * r
        } by {
            if s.contains(p) {
                let k = choose|k: int| 0 <= k < s.len() && s[k] == p;
                if k < head.len() {
                    assert(head[k] == p);
                    assert(head.contains(p));
                } else {
                    assert(tail[k - head.len()] == p);
                    assert(tail.contains(p));
                }
            }
            if dy <= p.1 - cy <= r && -r <= p.0 - cx <= r && (p.0 - cx) * (p.0 - cx) + (p.1
                - cy) * (p.1 - cy) <= r * r {
                if p.1 - cy == dy {
                    assert(head.contains(p));
                    let k = choose|k: int| 0 <= k < head.len() && head[k] == p;
                    assert(s[k] == p);
                } else {
                    assert(tail.contains(p));
                    let k = choose|k: int| 0 <= k < tail.len() && tail[k] == p;
                    assert(s[k + head.len()] == p);
                }
            }
        }
        assert forall|i: int, j: int| 0 <= i < head.len() && 0 <= j < tail.len() implies row_major_lt(
            #[trigger] head[i],
            #[trigger] tail[j],
        ) by {
            assert(head.contains(head[i]));
            assert(tail.contains(tail[j]));
        }
        lemma_sorted_concat(head, tail);
    }
}

/// Law: the baseline circle holds exactly the lattice cells of the closed
/// disc of radius `r`, each once, in row-major order.
pub proof fn lemma_disc_exact(cx: int, cy: int, r: int)
    ensures
        forall|p: (int, int)|
            #[trigger] disc_cells(cx, cy, r).contains(p) <==> {
                &&& (p.0 - cx) * (p.0 - cx) + (p.1 - cy) * (p.1 - cy) <= r * r
                &&& -r <= p.0 - cx <= r
                &&& -r <= p.1 - cy <= r
            },
        row_major_sorted(disc_cells(cx, cy, r)),
        disc_cells(cx, cy, r).no_duplicates(),
{
    lemma_disc_rows(cx, cy, r, -r);
    let s = disc_cells(cx, cy, r);
    assert forall|i: int, j: int| 0 <= i < s.len() && 0 <= j < s.len() && i != j implies s[i]
        != s[j] by {
        if i < j {
            assert(row_major_lt(s[i], s[j]));
        } else {
            assert(row_major_lt(s[j], s[i]));
        }
    }
}

/// Law: when `r >= 0`, a cell within the bounding square belongs to the disc
/// exactly when the implicit circle function is not positive there.
pub proof fn lemma_disc_is_implicit_inside(cx: int, cy: int, r: int, u: int, v: int)
    requires
        r >= 0,
    ensures
        disc_cells(cx, cy, r).contains((cx + u, cy + v)) <==> u * u + v * v - r * r <= 0,
{
    lemma_disc_exact(cx, cy, r);
    let p = (cx + u, cy + v);
    assert(p.0 - cx == u && p.1 - cy == v);
    if u * u + v * v <= r * r {
        if u > r {
            assert(u * u > r * r) by (nonlinear_arith)
                requires
                    u > r,
                    r >= 0,
            ;
        }
        if u < -r {
            assert(u * u > r * r) by (nonlinear_arith)
                requires
                    u < -r,
                    r >= 0,
            ;
        }
        if v > r {
            assert(v * v > r * r) by (nonlinear_arith)
                requires
                    v > r,
                    r >= 0,
            ;
        }
        if v < -r {
            assert(v * v > r * r) by (nonlinear_arith)
                requires
                    v < -r,
                    r >= 0,
            ;
        }
        assert(u * u >= 0 && v * v >= 0) by (nonlinear_arith);
    }
}

} // verus!

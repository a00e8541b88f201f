//! The two-region midpoint ellipse walk over the first quadrant.
//!
//! The classic formulation keeps decision values with quarter fractions (the
//! midpoints `(x + 1, y - 1/2)` and `(x + 1/2, y - 1)`); here every decision
//! value is kept multiplied by four, which makes it an exact integer with the
//! same sign.
use vstd::prelude::*;

use crate::algorithms::fits_i32;

verus! {

/// Four times the implicit ellipse function at the region-1 midpoint
/// `(x + 1, y - 1/2)`, with `a = rx²` and `b = ry²`.
pub open spec fn f4_east(a: int, b: int, x: int, y: int) -> int {
    4 * b * ((x + 1) * (x + 1)) + a * ((2 * y - 1) * (2 * y - 1)) - 4 * (a * b)
}

/// Four times the implicit ellipse function at the region-2 midpoint
/// `(x + 1/2, y - 1)`.
pub open spec fn f4_south(a: int, b: int, x: int, y: int) -> int {
    b * ((2 * x + 1) * (2 * x + 1)) + 4 * a * ((y - 1) * (y - 1)) - 4 * (a * b)
}

/// Region 1 goes on while the curve's slope is above -1: `2 b x < 2 a y`.
pub open spec fn in_region1(a: int, b: int, x: int, y: int) -> bool {
    b * x < a * y
}

/// The next region-1 pixel: east when the midpoint lies inside, else south-east.
pub open spec fn region1_next(a: int, b: int, x: int, y: int) -> (int, int) {
    if f4_east(a, b, x, y) < 0 {
        (x + 1, y)
    } else {
        (x + 1, y - 1)
    }
}

/// The next region-2 pixel: south when the midpoint lies outside, else
/// south-east.
pub open spec fn region2_next(a: int, b: int, x: int, y: int) -> (int, int) {
    if f4_south(a, b, x, y) > 0 {
        (x, y - 1)
    } else {
        (x + 1, y - 1)
    }
}

/// How far region 1 is from its end: `a y - b x` while it lasts.
pub open spec fn region1_measure(a: int, b: int, x: int, y: int) -> int {
    if a >= 0 && b > 0 && in_region1(a, b, x, y) {
        a * y - b * x
    } else {
        0
    }
}

/// The region-1 measure decreases by a step.
pub proof fn lemma_region1_measure(a: int, b: int, x: int, y: int)
    requires
        a >= 0,
        b > 0,
        in_region1(a, b, x, y),
    ensures
        0 <= region1_measure(a, b, region1_next(a, b, x, y).0, region1_next(a, b, x, y).1)
            < region1_measure(a, b, x, y),
{
    assert(a * (y - 1) == a * y - a) by (nonlinear_arith);
    assert(b * (x + 1) == b * x + b) by (nonlinear_arith);
}

/// The region-1 pixels from `(x, y)` on.
pub open spec fn region1(a: int, b: int, x: int, y: int) -> Seq<(int, int)>
    decreases region1_measure(a, b, x, y),
{
    if a < 0 || b <= 0 || !in_region1(a, b, x, y) {
        Seq::empty()
    } else {
        let n = region1_next(a, b, x, y);
        proof {
            lemma_region1_measure(a, b, x, y);
        }
        seq![(x, y)] + region1(a, b, n.0, n.1)
    }
}

/// Where region 1 hands over to region 2.
pub open spec fn region1_end(a: int, b: int, x: int, y: int) -> (int, int)
    decreases region1_measure(a, b, x, y),
{
    if a < 0 || b <= 0 || !in_region1(a, b, x, y) {
        (x, y)
    } else {
        let n = region1_next(a, b, x, y);
        proof {
            lemma_region1_measure(a, b, x, y);
        }
        region1_end(a, b, n.0, n.1)
    }
}

/// The region-2 pixels from `(x, y)` on, down to the x axis.
pub open spec fn region2(a: int, b: int, x: int, y: int) -> Seq<(int, int)>
    decreases y + 1,
{
    if y < 0 {
        Seq::empty()
    } else {
        let n = region2_next(a, b, x, y);
        seq![(x, y)] + region2(a, b, n.0, n.1)
    }
}

/// The first-quadrant pixels of the midpoint ellipse with radii `rx`, `ry`.
pub open spec fn quadrant(rx: int, ry: int) -> Seq<(int, int)> {
    let a = rx * rx;
    let b = ry * ry;
    let e = region1_end(a, b, 0, ry);
    region1(a, b, 0, ry) + region2(a, b, e.0, e.1)
}

/// The four images of the quadrant pixel `(x, y)` around `(cx, cy)`, in the
/// order in which they are plotted.
pub open spec fn mirror4(cx: int, cy: int, x: int, y: int) -> Seq<(int, int)> {
    seq![(cx + x, cy + y), (cx - x, cy + y), (cx + x, cy - y), (cx - x, cy - y)]
}

/// The four images of every quadrant pixel of `s`, pixel by pixel.
pub open spec fn mirror4_all(cx: int, cy: int, s: Seq<(int, int)>) -> Seq<(int, int)>
    decreases s.len(),
{
    if s.len() == 0 {
        Seq::empty()
    } else {
        mirror4(cx, cy, s[0].0, s[0].1) + mirror4_all(cx, cy, s.drop_first())
    }
}

/// The pixels of the midpoint ellipse with radii `rx`, `ry` around `(cx, cy)`.
pub open spec fn ellipse_outline(cx: int, cy: int, rx: int, ry: int) -> Seq<(int, int)> {
    mirror4_all(cx, cy, quadrant(rx, ry))
}

/// The absolute value of `v`.
pub open spec fn abs(v: int) -> int {
    if v < 0 {
        -v
    } else {
        v
    }
}

/// Radii for which the classic `i32` evaluation of the walk stays in range:
/// `rx²`, `ry²`, `2 rx² |ry|` and `2 ry² (|rx| + 1)` all fit, with room for
/// one more step.
pub open spec fn ellipse_radii_fit(rx: int, ry: int) -> bool {
    let r = abs(rx);
    let s = abs(ry);
    &&& r <= 46340
    &&& s <= 46340
    &&& 2 * (r * r) * s + 2 * (r * r) <= i32::MAX
    &&& 2 * (s * s) * (r + 1) + 2 * (s * s) <= i32::MAX
}

/// An ellipse whose walk runs in range and whose pixels have `i32`
/// coordinates.
pub open spec fn ellipse_fits(cx: int, cy: int, rx: int, ry: int) -> bool {
    &&& ellipse_radii_fit(rx, ry)
    &&& fits_i32(cx - abs(rx))
    &&& fits_i32(cx + abs(rx))
    &&& fits_i32(cy - abs(ry))
    &&& fits_i32(cy + abs(ry))
}

/// Unfolding region 1 at a pixel that belongs to it.
pub proof fn lemma_region1_unfold(a: int, b: int, x: int, y: int)
    requires
        a >= 0,
        b > 0,
        in_region1(a, b, x, y),
    ensures
        region1(a, b, x, y) == seq![(x, y)] + region1(
            a,
            b,
            region1_next(a, b, x, y).0,
            region1_next(a, b, x, y).1,
        ),
        region1_end(a, b, x, y) == region1_end(
            a,
            b,
            region1_next(a, b, x, y).0,
            region1_next(a, b, x, y).1,
        ),
{
}

/// Region 1 is over where its condition fails.
pub proof fn lemma_region1_over(a: int, b: int, x: int, y: int)
    requires
        !in_region1(a, b, x, y),
    ensures
        region1(a, b, x, y) == Seq::<(int, int)>::empty(),
        region1_end(a, b, x, y) == (x, y),
{
}

/// The state invariant of region 1 for radii `r = |rx|`, `s = |ry| >= 1`:
/// inside the region, the midpoint below the current pixel lies strictly
/// inside the ellipse.
pub open spec fn region1_inv(r: int, s: int, x: int, y: int) -> bool {
    let a = r * r;
    let b = s * s;
    &&& 0 <= r
    &&& 1 <= s
    &&& 0 <= x <= r
    &&& y <= s
    &&& in_region1(a, b, x, y) ==> 4 * b * (x * x) + a * ((2 * y - 1) * (2 * y - 1)) - 4 * (a
        * b) < 0
}

/// The state invariant of region 2: the pixel lies within the radii.
pub open spec fn region2_inv(r: int, s: int, x: int, y: int) -> bool {
    &&& 0 <= r
    &&& 0 <= s
    &&& 0 <= x
    &&& -1 <= y <= s
    &&& y >= 0 ==> x <= r
    &&& x <= r + 1
}

/// Region 1 starts in an invariant state.
pub proof fn lemma_region1_start(r: int, s: int)
    requires
        0 <= r,
        1 <= s,
    ensures
        region1_inv(r, s, 0, s),
{
    let a = r * r;
    let b = s * s;
    assert(a >= 0) by (nonlinear_arith)
        requires
            a == r * r,
    ;
    assert((2 * s - 1) * (2 * s - 1) == 4 * (s * s) - 4 * s + 1) by (nonlinear_arith);
    assert(a * ((2 * s - 1) * (2 * s - 1)) - 4 * (a * b) == a * (1 - 4 * s)) by (nonlinear_arith)
        requires
            b == s * s,
            a == r * r,
            (2 * s - 1) * (2 * s - 1) == 4 * (s * s) - 4 * s + 1,
    ;
    assert(4 * b * (0 * 0) == 0) by (nonlinear_arith);
    if in_region1(a, b, 0, s) {
        assert(a > 0) by (nonlinear_arith)
            requires
                b * 0 < a * s,
                s >= 1,
        ;
        assert(a * (1 - 4 * s) < 0) by (nonlinear_arith)
            requires
                a > 0,
                s >= 1,
        ;
    }
}

/// A region-1 step keeps the invariant and stays within the radii.
pub proof fn lemma_region1_step(r: int, s: int, x: int, y: int)
    requires
        region1_inv(r, s, x, y),
        in_region1(r * r, s * s, x, y),
    ensures
        region1_inv(
            r,
            s,
            region1_next(r * r, s * s, x, y).0,
            region1_next(r * r, s * s, x, y).1,
        ),
        x + 1 <= r,
        1 <= y,
{
    let a = r * r;
    let b = s * s;
    assert(a >= 0 && b >= 1) by (nonlinear_arith)
        requires
            a == r * r,
            b == s * s,
            s >= 1,
    ;
    assert(b * x >= 0) by (nonlinear_arith)
        requires
            b >= 1,
            x >= 0,
    ;
    assert(y >= 1) by (nonlinear_arith)
        requires
            b * x < a * y,
            b * x >= 0,
            a >= 0,
    ;
    assert((2 * y - 1) * (2 * y - 1) >= 0) by (nonlinear_arith);
    assert(x * x < a) by (nonlinear_arith)
        requires
            4 * b * (x * x) + a * ((2 * y - 1) * (2 * y - 1)) - 4 * (a * b) < 0,
            (2 * y - 1) * (2 * y - 1) >= 0,
            a >= 0,
            b >= 1,
    ;
    assert(x < r) by (nonlinear_arith)
        requires
            x * x < r * r,
            x >= 0,
            r >= 0,
    ;
    let n = region1_next(a, b, x, y);
    if in_region1(a, b, n.0, n.1) {
        if f4_east(a, b, x, y) < 0 {
        } else {
            assert(4 * b * ((x + 1) * (x + 1)) + a * ((2 * (y - 1) - 1) * (2 * (y - 1) - 1)) - 4
                * (a * b) < 0) by (nonlinear_arith)
                requires
                    4 * b * (x * x) + a * ((2 * y - 1) * (2 * y - 1)) - 4 * (a * b) < 0,
                    b * (x + 1) < a * (y - 1),
                    b >= 1,
            ;
        }
    }
}

/// A region-2 step keeps the invariant.
pub proof fn lemma_region2_step(r: int, s: int, x: int, y: int)
    requires
        region2_inv(r, s, x, y),
        y >= 0,
    ensures
        region2_inv(
            r,
            s,
            region2_next(r * r, s * s, x, y).0,
            region2_next(r * r, s * s, x, y).1,
        ),
{
    let a = r * r;
    let b = s * s;
    let n = region2_next(a, b, x, y);
    if n.1 >= 0 && f4_south(a, b, x, y) <= 0 {
        assert(s >= 1);
        assert(b >= 1) by (nonlinear_arith)
            requires
                s >= 1,
                b == s * s,
        ;
        assert(4 * a * ((y - 1) * (y - 1)) >= 0) by (nonlinear_arith)
            requires
                a == r * r,
        ;
        assert((2 * x + 1) * (2 * x + 1) <= 4 * a) by (nonlinear_arith)
            requires
                b * ((2 * x + 1) * (2 * x + 1)) + 4 * a * ((y - 1) * (y - 1)) - 4 * (a * b) <= 0,
                4 * a * ((y - 1) * (y - 1)) >= 0,
                b >= 1,
        ;
        assert(2 * x + 1 <= 2 * r) by (nonlinear_arith)
            requires
                (2 * x + 1) * (2 * x + 1) <= 4 * (r * r),
                x >= 0,
                r >= 0,
        ;
    }
}

/// Where region 1 ends, region 2 starts in an invariant state.
pub proof fn lemma_region1_end_inv(r: int, s: int, x: int, y: int)
    requires
        region1_inv(r, s, x, y),
        0 <= y,
    ensures
        region2_inv(
            r,
            s,
            region1_end(r * r, s * s, x, y).0,
            region1_end(r * r, s * s, x, y).1,
        ),
        region1_end(r * r, s * s, x, y).1 >= 0,
    decreases region1_measure(r * r, s * s, x, y),
{
    let a = r * r;
    let b = s * s;
    assert(a >= 0 && b >= 1) by (nonlinear_arith)
        requires
            a == r * r,
            b == s * s,
            s >= 1,
    ;
    if in_region1(a, b, x, y) {
        lemma_region1_step(r, s, x, y);
        lemma_region1_measure(a, b, x, y);
        let n = region1_next(a, b, x, y);
        lemma_region1_end_inv(r, s, n.0, n.1);
    }
}

} // verus!

verus! {

/// How the scaled decision values change along the walk.
pub proof fn lemma_decision_steps(a: int, b: int, x: int, y: int)
    ensures
        f4_east(a, b, 0, y) == 4 * b - 4 * a * y + a + 4 * a * (y * y) - 4 * (a * b),
        f4_east(a, b, x + 1, y) == f4_east(a, b, x, y) + 4 * (2 * b * (x + 1) + b),
        f4_east(a, b, x + 1, y - 1) == f4_east(a, b, x, y) + 4 * (2 * b * (x + 1) - 2 * a * (y
            - 1) + b),
        f4_south(a, b, x, y - 1) == f4_south(a, b, x, y) + 4 * (a - 2 * a * (y - 1)),
        f4_south(a, b, x + 1, y - 1) == f4_south(a, b, x, y) + 4 * (2 * b * (x + 1) - 2 * a * (y
            - 1) + a),
        2 * b * (x + 1) == 2 * b * x + 2 * b,
        2 * a * (y - 1) == 2 * a * y - 2 * a,
{
    assert(f4_east(a, b, 0, y) == 4 * b - 4 * a * y + a + 4 * a * (y * y) - 4 * (a * b))
        by (nonlinear_arith);
    assert(f4_east(a, b, x + 1, y) == f4_east(a, b, x, y) + 4 * (2 * b * (x + 1) + b))
        by (nonlinear_arith);
    assert(f4_east(a, b, x + 1, y - 1) == f4_east(a, b, x, y) + 4 * (2 * b * (x + 1) - 2 * a * (y
        - 1) + b)) by (nonlinear_arith);
    assert(f4_south(a, b, x, y - 1) == f4_south(a, b, x, y) + 4 * (a - 2 * a * (y - 1)))
        by (nonlinear_arith);
    assert(f4_south(a, b, x + 1, y - 1) == f4_south(a, b, x, y) + 4 * (2 * b * (x + 1) - 2 * a
        * (y - 1) + a)) by (nonlinear_arith);
    assert(2 * b * (x + 1) == 2 * b * x + 2 * b) by (nonlinear_arith);
    assert(2 * a * (y - 1) == 2 * a * y - 2 * a) by (nonlinear_arith);
}

/// Within the radii, every value of the walk is far inside the `i64` range.
pub proof fn lemma_walk_values_small(r: int, s: int, x: int, y: int)
    requires
        ellipse_radii_fit(r, s),
        0 <= r,
        0 <= s,
        0 <= x <= r + 1,
        -s - 1 <= y <= s,
    ensures
        0 <= r * r <= 0x7fff_ffff,
        0 <= s * s <= 0x7fff_ffff,
        0 <= 2 * (s * s) * x <= 0x7fff_ffff,
        -0x7fff_ffff <= 2 * (r * r) * y <= 0x7fff_ffff,
        0 <= (r * r) * (s * s) <= 0x1_0000_0000_0000,
        -0x40_0000_0000_0000 <= f4_east(r * r, s * s, x, y) <= 0x40_0000_0000_0000,
        -0x40_0000_0000_0000 <= f4_south(r * r, s * s, x, y) <= 0x40_0000_0000_0000,
        0 <= (2 * x + 1) * (2 * x + 1) <= 0x10_0000_0000,
        0 <= (y - 1) * (y - 1) <= 0x10_0000_0000,
        0 <= (s * s) * ((2 * x + 1) * (2 * x + 1)) <= 0x10_0000_0000_0000,
        0 <= 4 * (r * r) * ((y - 1) * (y - 1)) <= 0x10_0000_0000_0000,
        0 <= 4 * (r * r) * (s * s) <= 0x10_0000_0000_0000,
{
    let a = r * r;
    let b = s * s;
    assert(0 <= a && 0 <= b) by (nonlinear_arith)
        requires
            a == r * r,
            b == s * s,
    ;
    assert(a * s <= 0x4000_0000 && b * (r + 1) <= 0x4000_0000) by (nonlinear_arith)
        requires
            2 * a * s + 2 * a <= 0x7fff_ffff,
            2 * b * (r + 1) + 2 * b <= 0x7fff_ffff,
            a >= 0,
            b >= 0,
    ;
    assert(a <= 0x7fff_ffff && b <= 0x7fff_ffff) by (nonlinear_arith)
        requires
            2 * a * s + 2 * a <= 0x7fff_ffff,
            2 * b * (r + 1) + 2 * b <= 0x7fff_ffff,
            a >= 0,
            b >= 0,
            s >= 0,
            r >= 0,
    ;
    assert(0 <= 2 * b * x <= 0x7fff_ffff) by (nonlinear_arith)
        requires
            2 * b * (r + 1) + 2 * b <= 0x7fff_ffff,
            0 <= x <= r + 1,
            b >= 0,
    ;
    assert(-0x7fff_ffff <= 2 * a * y <= 0x7fff_ffff) by (nonlinear_arith)
        requires
            -s - 1 <= y <= s,
            a >= 0,
            2 * a * s + 2 * a <= 0x7fff_ffff,
    ;
    assert(a * b <= 0x1_0000_0000_0000) by (nonlinear_arith)
        requires
            a * s <= 0x4000_0000,
            s <= 46340,
            b == s * s,
            a >= 0,
            s >= 0,
    ;
    assert(0 <= a * b) by (nonlinear_arith)
        requires
            a >= 0,
            b >= 0,
    ;
    // the region-1 terms
    let q1 = (x + 1) * (x + 1);
    assert(0 <= q1 <= (r + 2) * (r + 2)) by (nonlinear_arith)
        requires
            q1 == (x + 1) * (x + 1),
            0 <= x + 1 <= r + 2,
    ;
    assert(b * q1 <= b * ((r + 2) * (r + 2)) && 0 <= b * q1) by (nonlinear_arith)
        requires
            0 <= q1 <= (r + 2) * (r + 2),
            b >= 0,
    ;
    assert(b * ((r + 2) * (r + 2)) == (b * (r + 2)) * (r + 2)) by (nonlinear_arith);
    assert(b * (r + 2) == b * (r + 1) + b) by (nonlinear_arith);
    assert((b * (r + 2)) * (r + 2) <= 0x1_0000_0000 * 46342) by (nonlinear_arith)
        requires
            0 <= b * (r + 2) <= 0x1_0000_0000,
            0 <= r + 2 <= 46342,
    ;
    let q2 = (2 * y - 1) * (2 * y - 1);
    assert(0 <= q2 <= (2 * s + 3) * (2 * s + 3)) by (nonlinear_arith)
        requires
            q2 == (2 * y - 1) * (2 * y - 1),
            -s - 1 <= y <= s,
            s >= 0,
    ;
    assert(a * q2 <= a * ((2 * s + 3) * (2 * s + 3)) && 0 <= a * q2) by (nonlinear_arith)
        requires
            0 <= q2 <= (2 * s + 3) * (2 * s + 3),
            a >= 0,
    ;
    assert(a * ((2 * s + 3) * (2 * s + 3)) == (a * (2 * s + 3)) * (2 * s + 3)) by (nonlinear_arith);
    assert(a * (2 * s + 3) == 2 * (a * s) + 3 * a) by (nonlinear_arith);
    assert((a * (2 * s + 3)) * (2 * s + 3) <= 0x4_0000_0000 * 92683) by (nonlinear_arith)
        requires
            0 <= a * (2 * s + 3) <= 0x4_0000_0000,
            0 <= 2 * s + 3 <= 92683,
    ;
    // the region-2 terms
    let q3 = (2 * x + 1) * (2 * x + 1);
    assert(0 <= q3 <= (2 * r + 3) * (2 * r + 3)) by (nonlinear_arith)
        requires
            q3 == (2 * x + 1) * (2 * x + 1),
            0 <= x <= r + 1,
    ;
    assert(b * q3 <= b * ((2 * r + 3) * (2 * r + 3)) && 0 <= b * q3) by (nonlinear_arith)
        requires
            0 <= q3 <= (2 * r + 3) * (2 * r + 3),
            b >= 0,
    ;
    assert(b * ((2 * r + 3) * (2 * r + 3)) == (b * (2 * r + 3)) * (2 * r + 3)) by (nonlinear_arith);
    assert(b * (2 * r + 3) == 2 * (b * (r + 1)) + b) by (nonlinear_arith);
    assert((b * (2 * r + 3)) * (2 * r + 3) <= 0x4_0000_0000 * 92683) by (nonlinear_arith)
        requires
            0 <= b * (2 * r + 3) <= 0x4_0000_0000,
            0 <= 2 * r + 3 <= 92683,
    ;
    let q4 = (y - 1) * (y - 1);
    assert(0 <= q4 <= (s + 2) * (s + 2)) by (nonlinear_arith)
        requires
            q4 == (y - 1) * (y - 1),
            -s - 1 <= y <= s,
            s >= 0,
    ;
    assert(a * q4 <= a * ((s + 2) * (s + 2)) && 0 <= a * q4) by (nonlinear_arith)
        requires
            0 <= q4 <= (s + 2) * (s + 2),
            a >= 0,
    ;
    assert(a * ((s + 2) * (s + 2)) == (a * (s + 2)) * (s + 2)) by (nonlinear_arith);
    assert(a * (s + 2) == a * s + 2 * a) by (nonlinear_arith);
    assert((a * (s + 2)) * (s + 2) <= 0x4_0000_0000 * 46342) by (nonlinear_arith)
        requires
            0 <= a * (s + 2) <= 0x4_0000_0000,
            0 <= s + 2 <= 46342,
    ;
    assert(4 * b * q1 == 4 * (b * q1)) by (nonlinear_arith);
    assert(4 * a * q4 == 4 * (a * q4)) by (nonlinear_arith);
    assert(4 * a * b == 4 * (a * b)) by (nonlinear_arith);
    assert(q3 <= 0x10_0000_0000) by (nonlinear_arith)
        requires
            q3 <= (2 * r + 3) * (2 * r + 3),
            0 <= r <= 46340,
    ;
    assert(q4 <= 0x10_0000_0000) by (nonlinear_arith)
        requires
            q4 <= (s + 2) * (s + 2),
            0 <= s <= 46340,
    ;
}

} // verus!

verus! {

/// A sequence of `i64` pairs as mathematical integer pairs.
pub open spec fn wide_pairs(s: Seq<(i64, i64)>) -> Seq<(int, int)> {
    s.map_values(|p: (i64, i64)| (p.0 as int, p.1 as int))
}

/// Every pixel of `s` lies in the quadrant box `[0, r] × [0, s_max]`.
pub open spec fn in_quadrant_box(s: Seq<(int, int)>, r: int, s_max: int) -> bool {
    forall|i: int| 0 <= i < s.len() ==> 0 <= (#[trigger] s[i]).0 <= r && 0 <= s[i].1 <= s_max
}

/// Walk the first quadrant of the midpoint ellipse with radii `rx`, `ry`:
/// region 1 while the slope is above -1, then region 2 down to the x axis.
pub fn midpoint_quadrant(rx: i32, ry: i32) -> (q: Vec<(i64, i64)>)
    requires
        ellipse_radii_fit(rx as int, ry as int),
    ensures
        wide_pairs(q@) == quadrant(rx as int, ry as int),
        in_quadrant_box(wide_pairs(q@), abs(rx as int), abs(ry as int)),
{
    let ghost r = abs(rx as int);
    let ghost s = abs(ry as int);
    let ghost total = quadrant(rx as int, ry as int);
    let rx = rx as i64;
    let ry = ry as i64;
    let ghost a_ = rx * rx;
    let ghost b_ = ry * ry;
    proof {
        assert(r * r == a_ && s * s == b_) by (nonlinear_arith)
            requires
                r == abs(rx as int),
                s == abs(ry as int),
                a_ == rx * rx,
                b_ == ry * ry,
        ;
        lemma_walk_values_small(r, s, 0, ry as int);
    }
    let a = rx * rx;
    let b = ry * ry;
    let mut q: Vec<(i64, i64)> = Vec::new();
    let mut x: i64 = 0;
    let mut y: i64 = ry;
    let ghost e = region1_end(a as int, b as int, 0, ry as int);
    proof {
        lemma_decision_steps(a as int, b as int, 0, ry as int);
        if ry >= 1 {
            lemma_region1_start(r, s);
            lemma_walk_values_small(r, s, 0, ry as int);
        } else {
            assert(b * 0 >= a * ry) by (nonlinear_arith)
                requires
                    ry <= 0,
                    a >= 0,
            ;
        }
        assert(2 * b * 0 == 0) by (nonlinear_arith);
        assert(-0x1_0000_0000 <= 4 * a * ry <= 0x1_0000_0000 && -0x8000_0000 <= 2 * a * ry
            <= 0x8000_0000) by (nonlinear_arith)
            requires
                a >= 0,
                s == abs(ry as int),
                2 * a * s + 2 * a <= 0x7fff_ffff,
        ;
        assert(4 * a * (ry * ry) == 4 * (a * b)) by (nonlinear_arith)
            requires
                b == ry * ry,
        ;
    }
    let mut d1: i64 = 4 * b - 4 * a * ry + a;
    let mut dx: i64 = 0;
    let mut dy: i64 = 2 * a * y;
    proof {
        assert(wide_pairs(q@) + region1(a as int, b as int, x as int, y as int) + region2(
            a as int,
            b as int,
            e.0,
            e.1,
        ) =~= total);
    }
    // Region 1
    while dx < dy
        invariant
            r * r == a,
            s * s == b,
            ellipse_radii_fit(r, s),
            r == abs(rx as int),
            s == abs(ry as int),
            ry >= 1 ==> region1_inv(r, ry as int, x as int, y as int),
            ry >= 1 ==> y >= 0,
            ry <= 0 ==> x == 0 && y == ry && !in_region1(a as int, b as int, x as int, y as int),
            0 <= x <= r,
            y <= s,
            dx == 2 * b * x,
            dy == 2 * a * y,
            d1 == f4_east(a as int, b as int, x as int, y as int),
            e == region1_end(a as int, b as int, x as int, y as int),
            wide_pairs(q@) + region1(a as int, b as int, x as int, y as int) + region2(
                a as int,
                b as int,
                e.0,
                e.1,
            ) == total,
            in_quadrant_box(wide_pairs(q@), r, s),
        decreases if dx < dy {
            dy - dx
        } else {
            0
        },
    {
        assert(in_region1(a as int, b as int, x as int, y as int)) by (nonlinear_arith)
            requires
                dx == 2 * b * x,
                dy == 2 * a * y,
                dx < dy,
        ;
        proof {
            assert(b >= 1 && a >= 0) by (nonlinear_arith)
                requires
                    s >= 1,
                    s * s == b,
                    r * r == a,
            ;
            lemma_region1_step(r, s, x as int, y as int);
            lemma_region1_unfold(a as int, b as int, x as int, y as int);
            lemma_decision_steps(a as int, b as int, x as int, y as int);
            lemma_walk_values_small(r, s, x + 1, y as int);
            lemma_walk_values_small(r, s, x + 1, y - 1);
        }
        let ghost before = wide_pairs(q@);
        q.push((x, y));
        proof {
            assert(wide_pairs(q@) =~= before.push((x as int, y as int)));
        }
        if d1 < 0 {
            x += 1;
            dx += 2 * b;
            d1 += 4 * (dx + b);
        } else {
            x += 1;
            y -= 1;
            dx += 2 * b;
            dy -= 2 * a;
            d1 += 4 * (dx - dy + b);
        }
        proof {
            assert(wide_pairs(q@) + region1(a as int, b as int, x as int, y as int) + region2(
                a as int,
                b as int,
                e.0,
                e.1,
            ) =~= total);
        }
    }
    proof {
        assert(!in_region1(a as int, b as int, x as int, y as int)) by (nonlinear_arith)
            requires
                dx == 2 * b * x,
                dy == 2 * a * y,
                dx >= dy,
        ;
        lemma_region1_over(a as int, b as int, x as int, y as int);
        assert(wide_pairs(q@) + region2(a as int, b as int, x as int, y as int) =~= total);
        if ry >= 1 {
            lemma_region1_end_inv(r, s, x as int, y as int);
        }
        lemma_walk_values_small(r, s, x as int, y as int);
        lemma_decision_steps(a as int, b as int, x as int, y as int);
    }
    let mut d2: i64 = b * ((2 * x + 1) * (2 * x + 1)) + 4 * a * ((y - 1) * (y - 1)) - 4 * a * b;
    // Region 2
    while y >= 0
        invariant
            r * r == a,
            s * s == b,
            ellipse_radii_fit(r, s),
            r == abs(rx as int),
            s == abs(ry as int),
            ry >= 0 ==> region2_inv(r, s, x as int, y as int),
            ry < 0 ==> y < 0,
            dx == 2 * b * x,
            dy == 2 * a * y,
            d2 == f4_south(a as int, b as int, x as int, y as int),
            wide_pairs(q@) + region2(a as int, b as int, x as int, y as int) == total,
            in_quadrant_box(wide_pairs(q@), r, s),
        decreases y + 1,
    {
        proof {
            lemma_region2_step(r, s, x as int, y as int);
            lemma_decision_steps(a as int, b as int, x as int, y as int);
            lemma_walk_values_small(r, s, x as int, y - 1);
            lemma_walk_values_small(r, s, x + 1, y - 1);
        }
        let ghost before = wide_pairs(q@);
        q.push((x, y));
        proof {
            assert(wide_pairs(q@) =~= before.push((x as int, y as int)));
        }
        if d2 > 0 {
            y -= 1;
            dy -= 2 * a;
            d2 += 4 * (a - dy);
        } else {
            y -= 1;
            x += 1;
            dx += 2 * b;
            dy -= 2 * a;
            d2 += 4 * (dx - dy + a);
        }
        proof {
            assert(wide_pairs(q@) + region2(a as int, b as int, x as int, y as int) =~= total);
        }
    }
    proof {
        assert(wide_pairs(q@) =~= total);
    }
    q
}

} // verus!

verus! {

/// Mirroring distributes over a trailing pixel.
pub proof fn lemma_mirror4_all_push(cx: int, cy: int, s: Seq<(int, int)>, p: (int, int))
    ensures
        mirror4_all(cx, cy, s.push(p)) == mirror4_all(cx, cy, s) + mirror4(cx, cy, p.0, p.1),
    decreases s.len(),
{
    if s.len() == 0 {
        assert(s.push(p).drop_first() =~= Seq::<(int, int)>::empty());
        assert(s.push(p)[0] == p);
        assert(mirror4_all(cx, cy, s.push(p).drop_first()) == Seq::<(int, int)>::empty());
        assert(mirror4_all(cx, cy, s.push(p)) =~= mirror4(cx, cy, p.0, p.1));
    } else {
        let t = s.drop_first();
        lemma_mirror4_all_push(cx, cy, t, p);
        assert(s.push(p).drop_first() =~= t.push(p));
        assert(s.push(p)[0] == s[0]);
        assert(mirror4_all(cx, cy, s.push(p)) =~= mirror4_all(cx, cy, s) + mirror4(cx, cy, p.0, p.1));
    }
}

/// Every mirrored sequence holds four cells per quadrant pixel, the `k`-th
/// being image `k % 4` of quadrant pixel `k / 4`.
pub proof fn lemma_mirror4_all_index(cx: int, cy: int, s: Seq<(int, int)>)
    ensures
        mirror4_all(cx, cy, s).len() == 4 * s.len(),
        forall|k: int|
            0 <= k < 4 * s.len() ==> #[trigger] mirror4_all(cx, cy, s)[k] == mirror4(
                cx,
                cy,
                s[k / 4].0,
                s[k / 4].1,
            )[k % 4],
    decreases s.len(),
{
    if s.len() > 0 {
        let t = s.drop_first();
        lemma_mirror4_all_index(cx, cy, t);
        let m = mirror4_all(cx, cy, s);
        assert forall|k: int| 0 <= k < 4 * s.len() implies #[trigger] m[k] == mirror4(
            cx,
            cy,
            s[k / 4].0,
            s[k / 4].1,
        )[k % 4] by {
            if k >= 4 {
                assert(m[k] == mirror4_all(cx, cy, t)[k - 4]);
                assert((k - 4) / 4 == k / 4 - 1);
                assert((k - 4) % 4 == k % 4);
                assert(t[(k - 4) / 4] == s[k / 4]);
            }
        }
    }
}

/// Law: the midpoint ellipse holds four cells per quadrant pixel, lies in the
/// box of its radii, and is symmetric under reflection in both axes through
/// its center.
pub proof fn lemma_ellipse_outline_shape(cx: int, cy: int, rx: int, ry: int)
    ensures
        ellipse_outline(cx, cy, rx, ry).len() == 4 * quadrant(rx, ry).len(),
        forall|i: int|
            0 <= i < ellipse_outline(cx, cy, rx, ry).len() ==> {
                let p = #[trigger] ellipse_outline(cx, cy, rx, ry)[i];
                &&& -abs(rx) <= p.0 - cx <= abs(rx)
                &&& -abs(ry) <= p.1 - cy <= abs(ry)
                &&& ellipse_outline(cx, cy, rx, ry).contains((2 * cx - p.0, p.1))
                &&& ellipse_outline(cx, cy, rx, ry).contains((p.0, 2 * cy - p.1))
            },
{
    let s = quadrant(rx, ry);
    let o = ellipse_outline(cx, cy, rx, ry);
    lemma_quadrant_in_box(rx, ry);
    lemma_mirror4_all_index(cx, cy, s);
    assert forall|i: int| 0 <= i < o.len() implies {
        let p = #[trigger] o[i];
        &&& -abs(rx) <= p.0 - cx <= abs(rx)
        &&& -abs(ry) <= p.1 - cy <= abs(ry)
        &&& o.contains((2 * cx - p.0, p.1))
        &&& o.contains((p.0, 2 * cy - p.1))
    } by {
        let m = i / 4;
        let j = i % 4;
        let fx: int = if j == 0 { 1 } else if j == 1 { 0 } else if j == 2 { 3 } else { 2 };
        let fy: int = if j == 0 { 2 } else if j == 1 { 3 } else if j == 2 { 0 } else { 1 };
        let a = 4 * m + fx;
        let b = 4 * m + fy;
        assert(a / 4 == m && a % 4 == fx);
        assert(b / 4 == m && b % 4 == fy);
        assert(o[a] == (2 * cx - o[i].0, o[i].1));
        assert(o[b] == (o[i].0, 2 * cy - o[i].1));
    }
}

} // verus!

verus! {

/// Region 1 from an invariant state stays in the box of the radii.
pub proof fn lemma_region1_box(r: int, s: int, x: int, y: int)
    requires
        region1_inv(r, s, x, y),
        0 <= y,
    ensures
        in_quadrant_box(region1(r * r, s * s, x, y), r, s),
    decreases region1_measure(r * r, s * s, x, y),
{
    let a = r * r;
    let b = s * s;
    assert(a >= 0 && b >= 1) by (nonlinear_arith)
        requires
            a == r * r,
            b == s * s,
            s >= 1,
    ;
    if in_region1(a, b, x, y) {
        lemma_region1_step(r, s, x, y);
        lemma_region1_measure(a, b, x, y);
        let n = region1_next(a, b, x, y);
        lemma_region1_box(r, s, n.0, n.1);
        lemma_region1_unfold(a, b, x, y);
        let q = region1(a, b, x, y);
        let t = region1(a, b, n.0, n.1);
        assert forall|i: int| 0 <= i < q.len() implies 0 <= (#[trigger] q[i]).0 <= r && 0
            <= q[i].1 <= s by {
            if i > 0 {
                assert(q[i] == t[i - 1]);
            }
        }
    }
}

/// Region 2 from an invariant state stays in the box of the radii.
pub proof fn lemma_region2_box(r: int, s: int, x: int, y: int)
    requires
        region2_inv(r, s, x, y),
    ensures
        in_quadrant_box(region2(r * r, s * s, x, y), r, s),
    decreases y + 1,
{
    if y >= 0 {
        lemma_region2_step(r, s, x, y);
        let n = region2_next(r * r, s * s, x, y);
        lemma_region2_box(r, s, n.0, n.1);
        let q = region2(r * r, s * s, x, y);
        let t = region2(r * r, s * s, n.0, n.1);
        assert forall|i: int| 0 <= i < q.len() implies 0 <= (#[trigger] q[i]).0 <= r && 0
            <= q[i].1 <= s by {
            if i > 0 {
                assert(q[i] == t[i - 1]);
            }
        }
    }
}

/// Every quadrant pixel lies in the box of the radii.
pub proof fn lemma_quadrant_in_box(rx: int, ry: int)
    ensures
        in_quadrant_box(quadrant(rx, ry), abs(rx), abs(ry)),
{
    let r = abs(rx);
    let s = abs(ry);
    let a = rx * rx;
    let b = ry * ry;
    assert(a == r * r && b == s * s) by (nonlinear_arith)
        requires
            r == abs(rx),
            s == abs(ry),
            a == rx * rx,
            b == ry * ry,
    ;
    let e = region1_end(a, b, 0, ry);
    let q1 = region1(a, b, 0, ry);
    let q2 = region2(a, b, e.0, e.1);
    if ry >= 1 {
        lemma_region1_start(r, ry);
        lemma_region1_box(r, ry, 0, ry);
        lemma_region1_end_inv(r, ry, 0, ry);
        lemma_region2_box(r, s, e.0, e.1);
    } else {
        assert(a >= 0) by (nonlinear_arith)
            requires
                a == rx * rx,
        ;
        assert(b * 0 >= a * ry) by (nonlinear_arith)
            requires
                ry <= 0,
                a >= 0,
        ;
        lemma_region1_over(a, b, 0, ry);
        if ry == 0 {
            lemma_region2_box(r, s, 0, 0);
        } else {
            assert(q2 =~= Seq::<(int, int)>::empty());
        }
    }
    let q = q1 + q2;
    assert forall|i: int| 0 <= i < q.len() implies 0 <= (#[trigger] q[i]).0 <= r && 0 <= q[i].1
        <= s by {
        if i < q1.len() {
            assert(q[i] == q1[i]);
        } else {
            assert(q[i] == q2[i - q1.len()]);
        }
    }
}

} // verus!

verus! {

/// Ring `i` of a shrinking fill exists: both radii reduced by `i` stay >= 1.
pub open spec fn ring_present(rx: int, ry: int, i: int) -> bool {
    rx - i >= 1 && ry - i >= 1
}

/// The outlines of the rings `i = 0 .. k` of a shrinking fill, ring `i`
/// having radii `rx - i` and `ry - i`; absent rings contribute nothing.
pub open spec fn shrinking_outlines(cx: int, cy: int, rx: int, ry: int, k: int) -> Seq<(int, int)>
    decreases k,
{
    if k <= 0 {
        Seq::empty()
    } else {
        shrinking_outlines(cx, cy, rx, ry, k - 1) + (if ring_present(rx, ry, k - 1) {
            ellipse_outline(cx, cy, rx - (k - 1), ry - (k - 1))
        } else {
            Seq::empty()
        })
    }
}

/// The ring label (`i + 1`) of every pixel of `shrinking_outlines(.., k)`.
pub open spec fn shrinking_labels(rx: int, ry: int, k: int) -> Seq<i32>
    decreases k,
{
    if k <= 0 {
        Seq::empty()
    } else {
        shrinking_labels(rx, ry, k - 1) + (if ring_present(rx, ry, k - 1) {
            Seq::new(4 * quadrant(rx - (k - 1), ry - (k - 1)).len(), |i: int| k as i32)
        } else {
            Seq::empty()
        })
    }
}

/// Smaller positive radii fit whenever the larger ones do.
pub proof fn lemma_ellipse_fits_shrink(cx: int, cy: int, rx: int, ry: int, rx2: int, ry2: int)
    requires
        ellipse_fits(cx, cy, rx, ry),
        1 <= rx2 <= rx,
        1 <= ry2 <= ry,
    ensures
        ellipse_fits(cx, cy, rx2, ry2),
{
    assert(2 * (rx2 * rx2) * ry2 + 2 * (rx2 * rx2) <= 2 * (rx * rx) * ry + 2 * (rx * rx))
        by (nonlinear_arith)
        requires
            1 <= rx2 <= rx,
            1 <= ry2 <= ry,
    ;
    assert(2 * (ry2 * ry2) * (rx2 + 1) + 2 * (ry2 * ry2) <= 2 * (ry * ry) * (rx + 1) + 2 * (ry
        * ry)) by (nonlinear_arith)
        requires
            1 <= rx2 <= rx,
            1 <= ry2 <= ry,
    ;
}

} // verus!

verus! {

/// Law: in the shrinking midpoint fill there is one ring label per point,
/// and each label names a ring that exists: it lies in
/// `1 ..= min(rx, ry)` (and within the `k` rings counted).
pub proof fn lemma_shrinking_labels(cx: int, cy: int, rx: int, ry: int, k: int)
    requires
        k <= i32::MAX,
    ensures
        shrinking_labels(rx, ry, k).len() == shrinking_outlines(cx, cy, rx, ry, k).len(),
        forall|i: int|
            0 <= i < shrinking_labels(rx, ry, k).len() ==> {
                let l = #[trigger] shrinking_labels(rx, ry, k)[i];
                &&& 1 <= l <= k
                &&& l <= rx
                &&& l <= ry
            },
    decreases k,
{
    if k > 0 {
        lemma_shrinking_labels(cx, cy, rx, ry, k - 1);
        let before = shrinking_labels(rx, ry, k - 1);
        let labels = shrinking_labels(rx, ry, k);
        if ring_present(rx, ry, k - 1) {
            lemma_mirror4_all_index(cx, cy, quadrant(rx - (k - 1), ry - (k - 1)));
        }
        assert forall|i: int| 0 <= i < labels.len() implies {
            let l = #[trigger] labels[i];
            &&& 1 <= l <= k
            &&& l <= rx
            &&& l <= ry
        } by {
            if i < before.len() {
                assert(labels[i] == before[i]);
            } else {
                assert(labels[i] == k as i32);
            }
        }
    }
}

} // verus!

verus! {

/// The shrinking rings up to `i` are a prefix of those up to `k >= i`,
/// with their labels.
proof fn lemma_shrinking_prefix(cx: int, cy: int, rx: int, ry: int, i: int, k: int)
    requires
        0 <= i <= k,
        k <= i32::MAX,
    ensures
        shrinking_outlines(cx, cy, rx, ry, i).len() <= shrinking_outlines(cx, cy, rx, ry, k).len(),
        shrinking_outlines(cx, cy, rx, ry, k).subrange(
            0,
            shrinking_outlines(cx, cy, rx, ry, i).len() as int,
        ) == shrinking_outlines(cx, cy, rx, ry, i),
        shrinking_labels(rx, ry, k).subrange(0, shrinking_outlines(cx, cy, rx, ry, i).len() as int)
            == shrinking_labels(rx, ry, i),
    decreases k - i,
{
    lemma_shrinking_labels(cx, cy, rx, ry, k);
    lemma_shrinking_labels(cx, cy, rx, ry, i);
    let m = shrinking_outlines(cx, cy, rx, ry, i).len() as int;
    if i < k {
        lemma_shrinking_prefix(cx, cy, rx, ry, i, k - 1);
        lemma_shrinking_labels(cx, cy, rx, ry, k - 1);
        assert(shrinking_outlines(cx, cy, rx, ry, k).subrange(0, m) =~= shrinking_outlines(
            cx,
            cy,
            rx,
            ry,
            k - 1,
        ).subrange(0, m));
        assert(shrinking_labels(rx, ry, k).subrange(0, m) =~= shrinking_labels(
            rx,
            ry,
            k - 1,
        ).subrange(0, m));
    } else {
        assert(shrinking_outlines(cx, cy, rx, ry, k).subrange(0, m) =~= shrinking_outlines(
            cx,
            cy,
            rx,
            ry,
            k,
        ));
        assert(shrinking_labels(rx, ry, k).subrange(0, m) =~= shrinking_labels(rx, ry, k));
    }
}

/// Law: in the shrinking midpoint fill, ring `i` is drawn whenever both
/// reduced radii `rx - i` and `ry - i` are at least 1: it occupies the
/// pixels after the rings before it, and they are exactly the midpoint
/// ellipse with those radii around the same center (what `MidpointEllipse`
/// plots), all labelled `i + 1`.
pub proof fn lemma_gap_fill_ring_is_midpoint_ellipse(
    cx: int,
    cy: int,
    rx: int,
    ry: int,
    k: int,
    i: int,
)
    requires
        0 <= i < k <= i32::MAX,
        rx - i >= 1,
        ry - i >= 1,
    ensures
        ({
            let start = shrinking_outlines(cx, cy, rx, ry, i).len() as int;
            let end = start + ellipse_outline(cx, cy, rx - i, ry - i).len();
            &&& end <= shrinking_outlines(cx, cy, rx, ry, k).len()
            &&& shrinking_outlines(cx, cy, rx, ry, k).subrange(start, end) == ellipse_outline(
                cx,
                cy,
                rx - i,
                ry - i,
            )
            &&& shrinking_labels(rx, ry, k).subrange(start, end) == Seq::new(
                ellipse_outline(cx, cy, rx - i, ry - i).len(),
                |j: int| (i + 1) as i32,
            )
        }),
{
    lemma_shrinking_prefix(cx, cy, rx, ry, i + 1, k);
    lemma_shrinking_labels(cx, cy, rx, ry, i + 1);
    lemma_shrinking_labels(cx, cy, rx, ry, i);
    lemma_mirror4_all_index(cx, cy, quadrant(rx - i, ry - i));
    let before = shrinking_outlines(cx, cy, rx, ry, i);
    let upto = shrinking_outlines(cx, cy, rx, ry, i + 1);
    let o = ellipse_outline(cx, cy, rx - i, ry - i);
    let start = before.len() as int;
    let end = start + o.len();
    assert(upto == before + o);
    assert(shrinking_outlines(cx, cy, rx, ry, k).subrange(start, end) =~= upto.subrange(
        start,
        end,
    ));
    assert(upto.subrange(start, end) =~= o);
    lemma_shrinking_labels(cx, cy, rx, ry, k);
    let lk = shrinking_labels(rx, ry, k);
    let lu = shrinking_labels(rx, ry, i + 1);
    assert forall|j: int| start <= j < end implies lk[j] == lu[j] by {
        assert(lk.subrange(0, upto.len() as int)[j] == lk[j]);
    }
    assert(lk.subrange(start, end) =~= lu.subrange(start, end));
    assert(lu.subrange(start, end) =~= Seq::new(o.len(), |j: int| (i + 1) as i32));
}

} // verus!

verus! {

/// Four times the implicit ellipse function at the midpoint `(x, y + 1/2)`
/// above the pixel `(x, y)`, with `a = rx²` and `b = ry²`.
pub open spec fn f4_above(a: int, b: int, x: int, y: int) -> int {
    4 * b * (x * x) + a * ((2 * y + 1) * (2 * y + 1)) - 4 * (a * b)
}

/// Four times the implicit ellipse function at the midpoint `(x + 1/2, y)`
/// to the right of the pixel `(x, y)`.
pub open spec fn f4_right(a: int, b: int, x: int, y: int) -> int {
    b * ((2 * x + 1) * (2 * x + 1)) + 4 * a * (y * y) - 4 * (a * b)
}

/// The pixel `(x, y)` lies on the ellipse's inner edge or outside it: the
/// curve passes through or below one of the midpoints above it and to its
/// right, so the pixel is not buried inside the ellipse.
pub open spec fn touches_curve(a: int, b: int, x: int, y: int) -> bool {
    f4_above(a, b, x, y) >= 0 || f4_right(a, b, x, y) >= 0
}

/// How the two midpoint values change along the walk.
pub proof fn lemma_midpoint_values(a: int, b: int, x: int, y: int)
    ensures
        f4_above(a, b, x + 1, y) == f4_above(a, b, x, y) + 4 * b * (2 * x + 1),
        f4_above(a, b, x + 1, y - 1) == f4_east(a, b, x, y),
        f4_right(a, b, x, y - 1) == f4_south(a, b, x, y),
        f4_right(a, b, x + 1, y - 1) == f4_right(a, b, x, y) + 8 * (b * x) + 8 * b + 4 * a - 8 * (
        a * y),
        f4_right(a, b, x + 1, y - 1) == f4_above(a, b, x, y) + 12 * (b * x) - 12 * (a * y) + 9 * b
            + 3 * a,
        b * (x + 1) == b * x + b,
        a * (y - 1) == a * y - a,
{
    assert(f4_above(a, b, x + 1, y) == f4_above(a, b, x, y) + 4 * b * (2 * x + 1))
        by (nonlinear_arith);
    assert(f4_above(a, b, x + 1, y - 1) == f4_east(a, b, x, y)) by (nonlinear_arith);
    assert(f4_right(a, b, x, y - 1) == f4_south(a, b, x, y)) by (nonlinear_arith);
    assert((2 * x + 1) * (2 * x + 1) == 4 * (x * x) + 4 * x + 1) by (nonlinear_arith);
    assert(b * (4 * (x * x) + 4 * x + 1) == 4 * b * (x * x) + 4 * (b * x) + b)
        by (nonlinear_arith);
    assert((2 * x + 3) * (2 * x + 3) == 4 * (x * x) + 12 * x + 9) by (nonlinear_arith);
    assert((y - 1) * (y - 1) == y * y - 2 * y + 1) by (nonlinear_arith);
    assert((2 * y + 1) * (2 * y + 1) == 4 * (y * y) + 4 * y + 1) by (nonlinear_arith);
    assert(b * (4 * (x * x) + 12 * x + 9) == 4 * b * (x * x) + 12 * (b * x) + 9 * b)
        by (nonlinear_arith);
    assert(4 * a * (y * y - 2 * y + 1) == 4 * a * (y * y) - 8 * (a * y) + 4 * a)
        by (nonlinear_arith);
    assert(a * (4 * (y * y) + 4 * y + 1) == 4 * a * (y * y) + 4 * (a * y) + a)
        by (nonlinear_arith);
    assert(f4_right(a, b, x + 1, y - 1) == b * (4 * (x * x) + 12 * x + 9) + 4 * a * (y * y - 2 * y
        + 1) - 4 * (a * b));
    assert(f4_right(a, b, x, y) == b * (4 * (x * x) + 4 * x + 1) + 4 * a * (y * y) - 4 * (a * b));
    assert(f4_right(a, b, x + 1, y - 1) == f4_right(a, b, x, y) + 8 * (b * x) + 8 * b + 4 * a - 8
        * (a * y));
    assert(f4_above(a, b, x, y) == 4 * b * (x * x) + a * (4 * (y * y) + 4 * y + 1) - 4 * (a * b));
    assert(b * (x + 1) == b * x + b) by (nonlinear_arith);
    assert(a * (y - 1) == a * y - a) by (nonlinear_arith);
}

/// Region 1 from a pixel whose upper midpoint is not inside the ellipse
/// keeps that property at every pixel and at its end, where the slope has
/// reached -1.
pub proof fn lemma_region1_touches(a: int, b: int, x: int, y: int)
    requires
        a >= 0,
        b > 0,
        x >= 0,
        y >= 0,
        f4_above(a, b, x, y) >= 0,
    ensures
        forall|i: int|
            0 <= i < region1(a, b, x, y).len() ==> #[trigger] f4_above(
                a,
                b,
                region1(a, b, x, y)[i].0,
                region1(a, b, x, y)[i].1,
            ) >= 0,
        f4_above(a, b, region1_end(a, b, x, y).0, region1_end(a, b, x, y).1) >= 0,
        !in_region1(a, b, region1_end(a, b, x, y).0, region1_end(a, b, x, y).1),
        region1_end(a, b, x, y).1 >= 0,
        region1(a, b, x, y).len() == 0 ==> region1_end(a, b, x, y) == (x, y),
        region1(a, b, x, y).len() > 0 ==> region1(a, b, x, y)[0] == (x, y),
    decreases region1_measure(a, b, x, y),
{
    if in_region1(a, b, x, y) {
        assert(y >= 1) by (nonlinear_arith)
            requires
                b * x < a * y,
                a >= 0,
                b > 0,
                x >= 0,
        ;
        assert(b * (2 * x + 1) >= 0) by (nonlinear_arith)
            requires
                b > 0,
                x >= 0,
        ;
        lemma_midpoint_values(a, b, x, y);
        lemma_region1_measure(a, b, x, y);
        lemma_region1_unfold(a, b, x, y);
        let n = region1_next(a, b, x, y);
        lemma_region1_touches(a, b, n.0, n.1);
        let q = region1(a, b, x, y);
        let t = region1(a, b, n.0, n.1);
        assert forall|i: int| 0 <= i < q.len() implies #[trigger] f4_above(
            a,
            b,
            q[i].0,
            q[i].1,
        ) >= 0 by {
            if i > 0 {
                assert(q[i] == t[i - 1]);
            }
        }
    }
}

/// Region 2 from a pixel past the slope -1 that is not buried inside the
/// ellipse plots only such pixels; from a pixel on or above the x axis it
/// starts there and ends on the x axis.
proof fn lemma_region2_touches(a: int, b: int, x: int, y: int)
    requires
        a >= 0,
        b >= 0,
        a * y <= b * x,
        touches_curve(a, b, x, y),
    ensures
        forall|i: int|
            0 <= i < region2(a, b, x, y).len() ==> #[trigger] touches_curve(
                a,
                b,
                region2(a, b, x, y)[i].0,
                region2(a, b, x, y)[i].1,
            ),
        y >= 0 ==> region2(a, b, x, y).len() >= 1 && region2(a, b, x, y)[0] == (x, y)
            && region2(a, b, x, y).last().1 == 0,
    decreases y + 1,
{
    if y >= 0 {
        lemma_midpoint_values(a, b, x, y);
        let n = region2_next(a, b, x, y);
        if f4_south(a, b, x, y) > 0 {
            assert(touches_curve(a, b, n.0, n.1));
        } else {
            assert(touches_curve(a, b, n.0, n.1));
        }
        lemma_region2_touches(a, b, n.0, n.1);
        let q = region2(a, b, x, y);
        let t = region2(a, b, n.0, n.1);
        assert(q == seq![(x, y)] + t);
        assert forall|i: int| 0 <= i < q.len() implies #[trigger] touches_curve(
            a,
            b,
            q[i].0,
            q[i].1,
        ) by {
            if i > 0 {
                assert(q[i] == t[i - 1]);
            }
        }
        if n.1 >= 0 {
            assert(q.last() == t.last());
        } else {
            assert(t.len() == 0);
            assert(q.last() == (x, y));
        }
    }
}

/// Law: no pixel of the midpoint ellipse is buried inside it. For every
/// quadrant pixel `(x, y)` of the ellipse with radii `rx`, `ry`, the
/// implicit function `ry² u² + rx² v² - rx² ry²` is non-negative at the
/// midpoint above it, `(x, y + 1/2)`, or at the one to its right,
/// `(x + 1/2, y)`: the curve passes within half a cell of the pixel, on
/// its outer side. For `ry >= 0` the quadrant starts at the top, `(0, ry)`,
/// and its last pixel lies on the x axis.
pub proof fn lemma_quadrant_hugs_ellipse(rx: int, ry: int)
    ensures
        forall|i: int|
            0 <= i < quadrant(rx, ry).len() ==> #[trigger] touches_curve(
                rx * rx,
                ry * ry,
                quadrant(rx, ry)[i].0,
                quadrant(rx, ry)[i].1,
            ),
        ry >= 0 ==> quadrant(rx, ry).len() >= 1 && quadrant(rx, ry)[0] == (0int, ry) && quadrant(
            rx,
            ry,
        ).last().1 == 0,
{
    let a = rx * rx;
    let b = ry * ry;
    assert(a >= 0 && b >= 0) by (nonlinear_arith)
        requires
            a == rx * rx,
            b == ry * ry,
    ;
    let e = region1_end(a, b, 0, ry);
    let q1 = region1(a, b, 0, ry);
    let q2 = region2(a, b, e.0, e.1);
    let q = quadrant(rx, ry);
    assert(q == q1 + q2);
    if ry < 0 {
        assert(b * 0 >= a * ry) by (nonlinear_arith)
            requires
                ry < 0,
                a >= 0,
        ;
        lemma_region1_over(a, b, 0, ry);
        assert(q =~= Seq::<(int, int)>::empty());
    } else {
        assert(f4_above(a, b, 0, ry) == a * (4 * ry + 1)) by (nonlinear_arith)
            requires
                b == ry * ry,
        ;
        assert(a * (4 * ry + 1) >= 0) by (nonlinear_arith)
            requires
                a >= 0,
                ry >= 0,
        ;
        if ry == 0 {
            assert(b == 0);
            lemma_region1_over(a, b, 0, ry);
            assert(e == (0int, 0int));
            assert(touches_curve(a, b, 0, 0));
            lemma_region2_touches(a, b, 0, 0);
        } else {
            assert(b > 0) by (nonlinear_arith)
                requires
                    b == ry * ry,
                    ry >= 1,
            ;
            lemma_region1_touches(a, b, 0, ry);
            assert(a * e.1 <= b * e.0);
            lemma_region2_touches(a, b, e.0, e.1);
        }
        assert forall|i: int| 0 <= i < q.len() implies #[trigger] touches_curve(
            a,
            b,
            q[i].0,
            q[i].1,
        ) by {
            if i < q1.len() {
                assert(q[i] == q1[i]);
                assert(f4_above(a, b, q1[i].0, q1[i].1) >= 0);
            } else {
                assert(q[i] == q2[i - q1.len()]);
            }
        }
        assert(q.last() == q2.last());
        if q1.len() > 0 {
            assert(q[0] == q1[0]);
        } else {
            assert(q[0] == q2[0]);
        }
    }
}

} // verus!

verus! {

/// Along region 1 every pixel lies in region 1, each pixel is followed by
/// its midpoint successor, and the last one's successor is where region 1
/// hands over.
proof fn lemma_region1_chain(a: int, b: int, x: int, y: int)
    ensures
        region1(a, b, x, y).len() > 0 ==> region1(a, b, x, y)[0] == (x, y),
        region1(a, b, x, y).len() == 0 ==> region1_end(a, b, x, y) == (x, y),
        forall|i: int|
            0 <= i < region1(a, b, x, y).len() ==> {
                let p = #[trigger] region1(a, b, x, y)[i];
                &&& in_region1(a, b, p.0, p.1)
                &&& i + 1 < region1(a, b, x, y).len() ==> region1(a, b, x, y)[i + 1]
                    == region1_next(a, b, p.0, p.1)
                &&& i + 1 == region1(a, b, x, y).len() ==> region1_end(a, b, x, y)
                    == region1_next(a, b, p.0, p.1)
            },
    decreases region1_measure(a, b, x, y),
{
    if a >= 0 && b > 0 && in_region1(a, b, x, y) {
        let n = region1_next(a, b, x, y);
        lemma_region1_measure(a, b, x, y);
        lemma_region1_unfold(a, b, x, y);
        lemma_region1_chain(a, b, n.0, n.1);
        let s = region1(a, b, x, y);
        let t = region1(a, b, n.0, n.1);
        assert forall|i: int| 0 <= i < s.len() implies {
            let p = #[trigger] s[i];
            &&& in_region1(a, b, p.0, p.1)
            &&& i + 1 < s.len() ==> s[i + 1] == region1_next(a, b, p.0, p.1)
            &&& i + 1 == s.len() ==> region1_end(a, b, x, y) == region1_next(a, b, p.0, p.1)
        } by {
            if i == 0 {
                assert(s[0] == (x, y));
                if t.len() > 0 {
                    assert(s[1] == t[0]);
                }
            } else {
                assert(s[i] == t[i - 1]);
                if i + 1 < s.len() {
                    assert(s[i + 1] == t[i]);
                }
            }
        }
    }
}

/// From a pixel past the slope -1 (`a y <= b x`), every pixel of region 2
/// stays past it and is followed by its midpoint successor.
proof fn lemma_region2_chain(a: int, b: int, x: int, y: int)
    requires
        a >= 0,
        b >= 0,
        a * y <= b * x,
    ensures
        region2(a, b, x, y).len() > 0 ==> region2(a, b, x, y)[0] == (x, y),
        forall|i: int|
            0 <= i < region2(a, b, x, y).len() ==> {
                let p = #[trigger] region2(a, b, x, y)[i];
                &&& !in_region1(a, b, p.0, p.1)
                &&& i + 1 < region2(a, b, x, y).len() ==> region2(a, b, x, y)[i + 1]
                    == region2_next(a, b, p.0, p.1)
            },
    decreases y + 1,
{
    if y >= 0 {
        let n = region2_next(a, b, x, y);
        assert(a * n.1 <= b * n.0) by (nonlinear_arith)
            requires
                a >= 0,
                b >= 0,
                a * y <= b * x,
                n.1 == y - 1,
                n.0 == x || n.0 == x + 1,
        ;
        lemma_region2_chain(a, b, n.0, n.1);
        let s = region2(a, b, x, y);
        let t = region2(a, b, n.0, n.1);
        assert(s == seq![(x, y)] + t);
        assert forall|i: int| 0 <= i < s.len() implies {
            let p = #[trigger] s[i];
            &&& !in_region1(a, b, p.0, p.1)
            &&& i + 1 < s.len() ==> s[i + 1] == region2_next(a, b, p.0, p.1)
        } by {
            if i == 0 {
                assert(s[0] == (x, y));
                if t.len() > 0 {
                    assert(s[1] == t[0]);
                }
            } else {
                assert(s[i] == t[i - 1]);
                if i + 1 < s.len() {
                    assert(s[i + 1] == t[i]);
                }
            }
        }
    }
}

/// Each quadrant pixel is followed by its region-1 successor while it lies
/// in region 1, and by its region-2 successor past it.
#[verifier::rlimit(30)]
proof fn lemma_quadrant_successors(rx: int, ry: int)
    ensures
        forall|i: int|
            0 <= i < quadrant(rx, ry).len() - 1 ==> {
                let p = #[trigger] quadrant(rx, ry)[i];
                quadrant(rx, ry)[i + 1] == if in_region1(rx * rx, ry * ry, p.0, p.1) {
                    region1_next(rx * rx, ry * ry, p.0, p.1)
                } else {
                    region2_next(rx * rx, ry * ry, p.0, p.1)
                }
            },
{
    let a = rx * rx;
    let b = ry * ry;
    assert(a >= 0 && b >= 0) by (nonlinear_arith)
        requires
            a == rx * rx,
            b == ry * ry,
    ;
    let e = region1_end(a, b, 0, ry);
    let q1 = region1(a, b, 0, ry);
    let q2 = region2(a, b, e.0, e.1);
    let q = quadrant(rx, ry);
    assert(q == q1 + q2);
    lemma_region1_chain(a, b, 0, ry);
    assert(a * e.1 <= b * e.0) by {
        if ry >= 1 {
            assert(b > 0) by (nonlinear_arith)
                requires
                    b == ry * ry,
                    ry >= 1,
            ;
            assert(f4_above(a, b, 0, ry) == a * (4 * ry + 1)) by (nonlinear_arith)
                requires
                    b == ry * ry,
            ;
            assert(a * (4 * ry + 1) >= 0) by (nonlinear_arith)
                requires
                    a >= 0,
                    ry >= 0,
            ;
            lemma_region1_touches(a, b, 0, ry);
        } else {
            assert(b * 0 >= a * ry) by (nonlinear_arith)
                requires
                    ry <= 0,
                    a >= 0,
            ;
            lemma_region1_over(a, b, 0, ry);
        }
    }
    lemma_region2_chain(a, b, e.0, e.1);
    assert forall|i: int| 0 <= i < q.len() - 1 implies {
        let p = #[trigger] q[i];
        q[i + 1] == if in_region1(a, b, p.0, p.1) {
            region1_next(a, b, p.0, p.1)
        } else {
            region2_next(a, b, p.0, p.1)
        }
    } by {
        let p = q[i];
        if i < q1.len() {
            assert(p == q1[i]);
            if i + 1 < q1.len() {
                assert(q[i + 1] == q1[i + 1]);
            } else {
                assert(q[i + 1] == q2[0]);
            }
        } else {
            assert(p == q2[i - q1.len()]);
            assert(q[i + 1] == q2[i + 1 - q1.len()]);
        }
    }
}

/// Law: the midpoint rule. With `a = rx²` and `b = ry²`, each quadrant
/// pixel `(x, y)` is followed by the pixel the midpoint test picks. While
/// the slope is above -1 (`b x < a y`) the walk steps right, staying on row
/// `y` exactly when the midpoint `(x + 1, y - 1/2)` lies strictly inside the
/// ellipse (`f4_east < 0`); past it, the walk steps down, moving right
/// exactly when the midpoint `(x + 1/2, y - 1)` does not lie outside it
/// (`f4_south <= 0`).
pub proof fn lemma_quadrant_midpoint_rule(rx: int, ry: int)
    ensures
        forall|i: int|
            0 <= i < quadrant(rx, ry).len() - 1 ==> {
                let p = #[trigger] quadrant(rx, ry)[i];
                let a = rx * rx;
                let b = ry * ry;
                quadrant(rx, ry)[i + 1] == if b * p.0 < a * p.1 {
                    if f4_east(a, b, p.0, p.1) < 0 {
                        (p.0 + 1, p.1)
                    } else {
                        (p.0 + 1, p.1 - 1)
                    }
                } else {
                    if f4_south(a, b, p.0, p.1) > 0 {
                        (p.0, p.1 - 1)
                    } else {
                        (p.0 + 1, p.1 - 1)
                    }
                }
            },
{
    lemma_quadrant_successors(rx, ry);
}

} // verus!

//! The step-then-plot variant of the midpoint ellipse walk, with an integer
//! region-1 decision value rounded from its exact quarter-valued start, and
//! optional bridge pixels that close the diagonal gaps.
use vstd::prelude::*;

use crate::algorithms::ellipse_walk::{
    f4_above, f4_east, f4_right, f4_south, in_quadrant_box, in_region1, lemma_decision_steps,
    lemma_midpoint_values, lemma_mirror4_all_index, mirror4_all,
    region1_measure, ring_present, wide_pairs,
};
use crate::algorithms::{fits_i32, lemma_contains_concat};

verus! {

/// `n / 4` rounded to the nearest integer, halves away from zero.
pub open spec fn round_quarter(n: int) -> int {
    if n >= 0 {
        (n + 2) / 4
    } else {
        -((-n + 2) / 4)
    }
}

/// `n / 4` rounded to the nearest integer, halves away from zero.
pub fn round_quarter_exec(n: i64) -> (q: i64)
    requires
        -0x1000_0000_0000_0000 <= n <= 0x1000_0000_0000_0000,
    ensures
        q == round_quarter(n as int),
{
    if n >= 0 {
        (n + 2) / 4
    } else {
        -((-n + 2) / 4)
    }
}

/// Four times the rounding error of the region-1 start value: the integer
/// decision value times four exceeds the exact scaled value by this much.
pub open spec fn rounding_offset(a: int, b: int, ry: int) -> int {
    4 * round_quarter(f4_east(a, b, 0, ry)) - f4_east(a, b, 0, ry)
}

/// The rounding offset lies within `[-2, 2]`.
pub proof fn lemma_rounding_offset(n: int)
    ensures
        -2 <= 4 * round_quarter(n) - n <= 2,
{
    if n >= 0 {
        assert(4 * ((n + 2) / 4) <= n + 2 && n + 2 < 4 * ((n + 2) / 4) + 4) by (nonlinear_arith)
            requires
                n + 2 >= 0,
        ;
    } else {
        assert(4 * ((-n + 2) / 4) <= -n + 2 && -n + 2 < 4 * ((-n + 2) / 4) + 4)
            by (nonlinear_arith)
            requires
                -n + 2 >= 0,
        ;
    }
}

/// Both possible region-1 successors decrease the measure.
pub proof fn lemma_roland_measure(a: int, b: int, x: int, y: int)
    requires
        a >= 0,
        b > 0,
        in_region1(a, b, x, y),
    ensures
        0 <= region1_measure(a, b, x + 1, y) < region1_measure(a, b, x, y),
        0 <= region1_measure(a, b, x + 1, y - 1) < region1_measure(a, b, x, y),
{
    assert(a * (y - 1) == a * y - a) by (nonlinear_arith);
    assert(b * (x + 1) == b * x + b) by (nonlinear_arith);
}

/// The region-1 pixels plotted after each step from `(x, y)`; with
/// `bridges`, a diagonal step also plots the pixel beside the old one.
pub open spec fn roland_r1(a: int, b: int, c: int, x: int, y: int, bridges: bool) -> Seq<
    (int, int),
>
    decreases region1_measure(a, b, x, y),
{
    if a < 0 || b <= 0 || !in_region1(a, b, x, y) {
        Seq::empty()
    } else {
        proof {
            lemma_roland_measure(a, b, x, y);
        }
        if f4_east(a, b, x, y) + c < 0 {
            seq![(x + 1, y)] + roland_r1(a, b, c, x + 1, y, bridges)
        } else {
            (if bridges {
                seq![(x + 1, y)]
            } else {
                Seq::empty()
            }) + seq![(x + 1, y - 1)] + roland_r1(a, b, c, x + 1, y - 1, bridges)
        }
    }
}

/// Where region 1 of the step-then-plot walk ends.
pub open spec fn roland_r1_end(a: int, b: int, c: int, x: int, y: int) -> (int, int)
    decreases region1_measure(a, b, x, y),
{
    if a < 0 || b <= 0 || !in_region1(a, b, x, y) {
        (x, y)
    } else {
        proof {
            lemma_roland_measure(a, b, x, y);
        }
        if f4_east(a, b, x, y) + c < 0 {
            roland_r1_end(a, b, c, x + 1, y)
        } else {
            roland_r1_end(a, b, c, x + 1, y - 1)
        }
    }
}

/// The region-2 pixels plotted after each step from `(x, y)` while `y > 0`.
pub open spec fn roland_r2(a: int, b: int, x: int, y: int, bridges: bool) -> Seq<(int, int)>
    decreases y,
{
    if y <= 0 {
        Seq::empty()
    } else if f4_south(a, b, x, y) > 0 {
        seq![(x, y - 1)] + roland_r2(a, b, x, y - 1, bridges)
    } else {
        (if bridges {
            seq![(x, y - 1)]
        } else {
            Seq::empty()
        }) + seq![(x + 1, y - 1)] + roland_r2(a, b, x + 1, y - 1, bridges)
    }
}

/// The first-quadrant pixels of the step-then-plot ellipse walk with radii
/// `rx`, `ry`, in plotting order.
pub open spec fn roland_pixels(rx: int, ry: int, bridges: bool) -> Seq<(int, int)> {
    let a = rx * rx;
    let b = ry * ry;
    let c = rounding_offset(a, b, ry);
    let e = roland_r1_end(a, b, c, 0, ry);
    seq![(0, ry)] + roland_r1(a, b, c, 0, ry, bridges) + roland_r2(a, b, e.0, e.1, bridges)
}

/// Radii for which the step-then-plot walk's values all stay exact: both
/// radii between 1 and 2^20 and `rx² ry² <= 2^48`.
pub open spec fn wide_radii_fit(rx: int, ry: int) -> bool {
    &&& 1 <= rx <= 0x10_0000
    &&& 1 <= ry <= 0x10_0000
    &&& (rx * rx) * (ry * ry) <= 0x1_0000_0000_0000
}

/// Wide radii around a center whose pixels all have `i32` coordinates.
pub open spec fn wide_ellipse_fits(cx: int, cy: int, rx: int, ry: int) -> bool {
    &&& wide_radii_fit(rx, ry)
    &&& fits_i32(cx - rx)
    &&& fits_i32(cx + rx)
    &&& fits_i32(cy - ry)
    &&& fits_i32(cy + ry)
}

/// Within the radii, every value of the walk is far inside the `i64` range.
pub proof fn lemma_wide_values_small(r: int, s: int, x: int, y: int)
    requires
        wide_radii_fit(r, s),
        0 <= x <= r + 1,
        -1 <= y <= s,
    ensures
        0 <= r * r <= 0x100_0000_0000,
        0 <= s * s <= 0x100_0000_0000,
        0 <= 2 * (s * s) * x <= 0x10_0000_0000_0000,
        -0x10_0000_0000_0000 <= 2 * (r * r) * y <= 0x10_0000_0000_0000,
        0 <= (r * r) * (s * s) <= 0x1_0000_0000_0000,
        -0x100_0000_0000_0000 <= f4_east(r * r, s * s, x, y) <= 0x100_0000_0000_0000,
        -0x100_0000_0000_0000 <= f4_south(r * r, s * s, x, y) <= 0x100_0000_0000_0000,
        0 <= (2 * x + 1) * (2 * x + 1) <= 0x1000_0000_0000,
        0 <= (y - 1) * (y - 1) <= 0x1000_0000_0000,
        0 <= (s * s) * ((2 * x + 1) * (2 * x + 1)) <= 0x100_0000_0000_0000,
        0 <= 4 * (r * r) * ((y - 1) * (y - 1)) <= 0x100_0000_0000_0000,
        0 <= 4 * (r * r) * (s * s) <= 0x100_0000_0000_0000,
{
    let a = r * r;
    let b = s * s;
    let m = a * b;
    assert(1 <= a <= 0x100_0000_0000 && 1 <= b <= 0x100_0000_0000) by (nonlinear_arith)
        requires
            a == r * r,
            b == s * s,
            1 <= r <= 0x10_0000,
            1 <= s <= 0x10_0000,
    ;
    assert(0 <= m) by (nonlinear_arith)
        requires
            m == a * b,
            a >= 1,
            b >= 1,
    ;
    assert(0 <= 2 * b * x <= 4 * m) by (nonlinear_arith)
        requires
            m == a * b,
            a == r * r,
            0 <= x <= r + 1,
            r >= 1,
            b >= 1,
    ;
    assert(-2 * m <= 2 * a * y <= 2 * m) by (nonlinear_arith)
        requires
            m == a * b,
            b == s * s,
            -1 <= y <= s,
            s >= 1,
            a >= 1,
    ;
    let q1 = (x + 1) * (x + 1);
    assert(0 <= b * q1 <= 9 * m) by (nonlinear_arith)
        requires
            q1 == (x + 1) * (x + 1),
            m == a * b,
            a == r * r,
            0 <= x <= r + 1,
            r >= 1,
            b >= 1,
    ;
    let q2 = (2 * y - 1) * (2 * y - 1);
    assert(0 <= a * q2 <= 9 * m) by (nonlinear_arith)
        requires
            q2 == (2 * y - 1) * (2 * y - 1),
            m == a * b,
            b == s * s,
            -1 <= y <= s,
            s >= 1,
            a >= 1,
    ;
    let q3 = (2 * x + 1) * (2 * x + 1);
    assert(0 <= b * q3 <= 25 * m) by (nonlinear_arith)
        requires
            q3 == (2 * x + 1) * (2 * x + 1),
            m == a * b,
            a == r * r,
            0 <= x <= r + 1,
            r >= 1,
            b >= 1,
    ;
    let q4 = (y - 1) * (y - 1);
    assert(0 <= a * q4 <= 4 * m) by (nonlinear_arith)
        requires
            q4 == (y - 1) * (y - 1),
            m == a * b,
            b == s * s,
            -1 <= y <= s,
            s >= 1,
            a >= 1,
    ;
    assert(4 * b * q1 == 4 * (b * q1)) by (nonlinear_arith);
    assert(4 * a * q4 == 4 * (a * q4)) by (nonlinear_arith);
    assert(4 * a * b == 4 * m) by (nonlinear_arith)
        requires
            m == a * b,
    ;
    assert(0 <= q3 <= 0x1000_0000_0000) by (nonlinear_arith)
        requires
            q3 == (2 * x + 1) * (2 * x + 1),
            0 <= x <= r + 1,
            r <= 0x10_0000,
    ;
    assert(0 <= q4 <= 0x1000_0000_0000) by (nonlinear_arith)
        requires
            q4 == (y - 1) * (y - 1),
            -1 <= y <= s,
            s <= 0x10_0000,
    ;
}

/// The state invariant of region 1 for radii `r`, `s >= 1` and a rounding
/// offset within `[-2, 2]`: inside the region, the scaled value at the
/// midpoint below the current pixel is below 2.
pub open spec fn roland_inv(r: int, s: int, x: int, y: int) -> bool {
    let a = r * r;
    let b = s * s;
    &&& 1 <= r
    &&& 1 <= s
    &&& 0 <= x <= r
    &&& 0 <= y <= s
    &&& in_region1(a, b, x, y) ==> 4 * b * (x * x) + a * ((2 * y - 1) * (2 * y - 1)) - 4 * (a
        * b) < 2
}

/// A region-1 step keeps the invariant, and the pixels it plots stay
/// within the radii.
pub proof fn lemma_roland_step(r: int, s: int, c: int, x: int, y: int)
    requires
        roland_inv(r, s, x, y),
        in_region1(r * r, s * s, x, y),
        -2 <= c <= 2,
    ensures
        f4_east(r * r, s * s, x, y) + c < 0 ==> roland_inv(r, s, x + 1, y),
        !(f4_east(r * r, s * s, x, y) + c < 0) ==> roland_inv(r, s, x + 1, y - 1),
        x + 1 <= r,
        1 <= y,
{
    let a = r * r;
    let b = s * s;
    assert(a >= 1 && b >= 1) by (nonlinear_arith)
        requires
            a == r * r,
            b == s * s,
            r >= 1,
            s >= 1,
    ;
    assert(b * x >= 0) by (nonlinear_arith)
        requires
            b >= 1,
            x >= 0,
    ;
    assert(y >= 1) by (nonlinear_arith)
        requires
            b * x < a * y,
            b * x >= 0,
            a >= 1,
    ;
    assert((2 * y - 1) * (2 * y - 1) >= 1) by (nonlinear_arith)
        requires
            y >= 1,
    ;
    assert(a * ((2 * y - 1) * (2 * y - 1)) >= a) by (nonlinear_arith)
        requires
            (2 * y - 1) * (2 * y - 1) >= 1,
            a >= 1,
    ;
    // strictly inside the radius: x < r
    if x >= r {
        assert(x == r);
        assert(4 * b * (x * x) >= 4 * (a * b)) by (nonlinear_arith)
            requires
                x == r,
                a == r * r,
                b >= 1,
        ;
        assert(a == 1) by (nonlinear_arith)
            requires
                4 * b * (x * x) + a * ((2 * y - 1) * (2 * y - 1)) - 4 * (a * b) < 2,
                4 * b * (x * x) >= 4 * (a * b),
                a * ((2 * y - 1) * (2 * y - 1)) >= a,
                a >= 1,
        ;
        assert(r == 1) by (nonlinear_arith)
            requires
                r * r == 1,
                r >= 1,
        ;
        assert(b * x >= b) by (nonlinear_arith)
            requires
                x == 1,
                b >= 1,
        ;
        assert(y == 1) by (nonlinear_arith)
            requires
                4 * b * (x * x) + a * ((2 * y - 1) * (2 * y - 1)) - 4 * (a * b) < 2,
                4 * b * (x * x) >= 4 * (a * b),
                a == 1,
                y >= 1,
        ;
        assert(false);
    }
    if f4_east(a, b, x, y) + c < 0 {
        if in_region1(a, b, x + 1, y) {
            assert(4 * b * ((x + 1) * (x + 1)) + a * ((2 * y - 1) * (2 * y - 1)) - 4 * (a * b)
                < 2);
        }
        if y > s {
            assert(false);
        }
    } else {
        if in_region1(a, b, x + 1, y - 1) {
            assert(4 * b * ((x + 1) * (x + 1)) + a * ((2 * (y - 1) - 1) * (2 * (y - 1) - 1)) - 4
                * (a * b) < 2) by (nonlinear_arith)
                requires
                    4 * b * (x * x) + a * ((2 * y - 1) * (2 * y - 1)) - 4 * (a * b) < 2,
                    b * (x + 1) < a * (y - 1),
                    b >= 1,
            ;
        }
    }
}

/// A region-2 step from a pixel within the radii keeps the next pixel
/// within the radii.
pub proof fn lemma_roland_r2_step(r: int, s: int, x: int, y: int)
    requires
        1 <= r,
        1 <= s,
        0 <= x <= r,
        1 <= y <= s,
    ensures
        !(f4_south(r * r, s * s, x, y) > 0) ==> x + 1 <= r,
{
    let a = r * r;
    let b = s * s;
    if f4_south(a, b, x, y) <= 0 {
        assert(b >= 1) by (nonlinear_arith)
            requires
                s >= 1,
                b == s * s,
        ;
        assert(4 * a * ((y - 1) * (y - 1)) >= 0) by (nonlinear_arith)
            requires
                a == r * r,
        ;
        assert((2 * x + 1) * (2 * x + 1) <= 4 * a) by (nonlinear_arith)
            requires
                b * ((2 * x + 1) * (2 * x + 1)) + 4 * a * ((y - 1) * (y - 1)) - 4 * (a * b) <= 0,
                4 * a * ((y - 1) * (y - 1)) >= 0,
                b >= 1,
        ;
        assert(2 * x + 1 <= 2 * r) by (nonlinear_arith)
            requires
                (2 * x + 1) * (2 * x + 1) <= 4 * (r * r),
                x >= 0,
                r >= 0,
        ;
    }
}

} // verus!

verus! {

/// Unfolding region 1 of the step-then-plot walk at a pixel inside it.
pub proof fn lemma_roland_r1_unfold(a: int, b: int, c: int, x: int, y: int, bridges: bool)
    requires
        a >= 0,
        b > 0,
        in_region1(a, b, x, y),
    ensures
        f4_east(a, b, x, y) + c < 0 ==> roland_r1(a, b, c, x, y, bridges) == seq![(x + 1, y)]
            + roland_r1(a, b, c, x + 1, y, bridges) && roland_r1_end(a, b, c, x, y)
            == roland_r1_end(a, b, c, x + 1, y),
        !(f4_east(a, b, x, y) + c < 0) ==> roland_r1(a, b, c, x, y, bridges) == (if bridges {
            seq![(x + 1, y)]
        } else {
            Seq::<(int, int)>::empty()
        }) + seq![(x + 1, y - 1)] + roland_r1(a, b, c, x + 1, y - 1, bridges) && roland_r1_end(
            a,
            b,
            c,
            x,
            y,
        ) == roland_r1_end(a, b, c, x + 1, y - 1),
{
}

/// Walk the first quadrant of the ellipse with radii `rx`, `ry`, plotting
/// after each step; with `bridges`, also plot the pixel that closes each
/// diagonal step.
pub fn roland_walk(rx: i32, ry: i32, bridges: bool) -> (q: Vec<(i64, i64)>)
    requires
        wide_radii_fit(rx as int, ry as int),
    ensures
        wide_pairs(q@) == roland_pixels(rx as int, ry as int, bridges),
        in_quadrant_box(wide_pairs(q@), rx as int, ry as int),
{
    let ghost r = rx as int;
    let ghost s = ry as int;
    let ghost total = roland_pixels(r, s, bridges);
    let rx = rx as i64;
    let ry = ry as i64;
    proof {
        lemma_wide_values_small(r, s, 0, s);
    }
    let rx2: i64 = rx * rx;
    let ry2: i64 = ry * ry;
    let two_rx2: i64 = 2 * rx2;
    let two_ry2: i64 = 2 * ry2;
    let ghost a = rx2 as int;
    let ghost b = ry2 as int;
    let ghost c = rounding_offset(a, b, s);
    let ghost e = roland_r1_end(a, b, c, 0, s);
    let mut out: Vec<(i64, i64)> = Vec::new();
    let mut x: i64 = 0;
    let mut y: i64 = ry;
    let mut px: i64 = 0;
    let mut py: i64 = two_rx2 * y;
    out.push((x, y));
    proof {
        assert(a >= 1 && b >= 1) by (nonlinear_arith)
            requires
                a == r * r,
                b == s * s,
                r >= 1,
                s >= 1,
        ;
        lemma_decision_steps(a, b, 0, s);
        assert(4 * a * (s * s) == 4 * (a * b)) by (nonlinear_arith)
            requires
                b == s * s,
        ;
        assert(2 * b * 0 == 0) by (nonlinear_arith);
        lemma_rounding_offset(f4_east(a, b, 0, s));
    }
    let mut p1: i64 = round_quarter_exec(4 * ry2 - 4 * rx2 * ry + rx2);
    proof {
        assert(wide_pairs(out@) =~= seq![(0int, s)]);
        assert(wide_pairs(out@) + roland_r1(a, b, c, 0, s, bridges) + roland_r2(
            a,
            b,
            e.0,
            e.1,
            bridges,
        ) =~= total);
        assert(in_region1(a, b, 0, s) ==> 4 * b * (0 * 0) + a * ((2 * s - 1) * (2 * s - 1)) - 4 * (a
            * b) < 2) by (nonlinear_arith)
            requires
                a >= 1,
                b == s * s,
                s >= 1,
        ;
    }
    // Region 1
    while px < py
        invariant
            r == rx,
            s == ry,
            a == r * r,
            b == s * s,
            rx2 == a,
            ry2 == b,
            two_rx2 == 2 * a,
            two_ry2 == 2 * b,
            wide_radii_fit(r, s),
            -2 <= c <= 2,
            c == rounding_offset(a, b, s),
            roland_inv(r, s, x as int, y as int),
            px == 2 * b * x,
            py == 2 * a * y,
            4 * p1 == f4_east(a, b, x as int, y as int) + c,
            e == roland_r1_end(a, b, c, x as int, y as int),
            wide_pairs(out@) + roland_r1(a, b, c, x as int, y as int, bridges) + roland_r2(
                a,
                b,
                e.0,
                e.1,
                bridges,
            ) == total,
            in_quadrant_box(wide_pairs(out@), r, s),
        decreases if px < py {
            py - px
        } else {
            0
        },
    {
        assert(in_region1(a, b, x as int, y as int)) by (nonlinear_arith)
            requires
                px == 2 * b * x,
                py == 2 * a * y,
                px < py,
        ;
        proof {
            assert(a >= 1 && b >= 1) by (nonlinear_arith)
                requires
                    a == r * r,
                    b == s * s,
                    r >= 1,
                    s >= 1,
            ;
            lemma_roland_step(r, s, c, x as int, y as int);
            lemma_roland_r1_unfold(a, b, c, x as int, y as int, bridges);
            lemma_decision_steps(a, b, x as int, y as int);
            lemma_wide_values_small(r, s, x + 1, y as int);
            lemma_wide_values_small(r, s, x + 1, y - 1);
            assert(f4_east(a, b, x as int, y as int) + c < 0 <==> p1 < 0);
        }
        let ghost before = wide_pairs(out@);
        x += 1;
        px += two_ry2;
        if p1 < 0 {
            p1 += ry2 + px;
        } else {
            let old_y = y;
            y -= 1;
            py -= two_rx2;
            p1 += ry2 + px - py;
            if bridges {
                out.push((x, old_y));
                proof {
                    assert(wide_pairs(out@) =~= before.push((x as int, old_y as int)));
                }
            }
        }
        let ghost mid = wide_pairs(out@);
        out.push((x, y));
        proof {
            assert(wide_pairs(out@) =~= mid.push((x as int, y as int)));
        }
        proof {
            assert(wide_pairs(out@) + roland_r1(a, b, c, x as int, y as int, bridges) + roland_r2(
                a,
                b,
                e.0,
                e.1,
                bridges,
            ) =~= total);
        }
    }
    proof {
        assert(!in_region1(a, b, x as int, y as int)) by (nonlinear_arith)
            requires
                px == 2 * b * x,
                py == 2 * a * y,
                px >= py,
        ;
        assert(roland_r1(a, b, c, x as int, y as int, bridges) =~= Seq::<(int, int)>::empty());
        assert(e == (x as int, y as int));
        assert(wide_pairs(out@) + roland_r2(a, b, x as int, y as int, bridges) =~= total);
        lemma_wide_values_small(r, s, x as int, y as int);
    }
    let mut q2: i64 = ry2 * ((2 * x + 1) * (2 * x + 1)) + 4 * rx2 * ((y - 1) * (y - 1)) - 4 * rx2
        * ry2;
    // Region 2
    while y > 0
        invariant
            r == rx,
            s == ry,
            a == r * r,
            b == s * s,
            rx2 == a,
            ry2 == b,
            two_rx2 == 2 * a,
            two_ry2 == 2 * b,
            wide_radii_fit(r, s),
            0 <= x <= r,
            0 <= y <= s,
            px == 2 * b * x,
            py == 2 * a * y,
            q2 == f4_south(a, b, x as int, y as int),
            wide_pairs(out@) + roland_r2(a, b, x as int, y as int, bridges) == total,
            in_quadrant_box(wide_pairs(out@), r, s),
        decreases y,
    {
        proof {
            lemma_roland_r2_step(r, s, x as int, y as int);
            lemma_decision_steps(a, b, x as int, y as int);
            lemma_wide_values_small(r, s, x as int, y - 1);
            lemma_wide_values_small(r, s, x + 1, y - 1);
        }
        let ghost before = wide_pairs(out@);
        let old_x = x;
        y -= 1;
        py -= two_rx2;
        if q2 > 0 {
            q2 += 4 * (rx2 - py);
        } else {
            x += 1;
            px += two_ry2;
            q2 += 4 * (rx2 - py + px);
            if bridges {
                out.push((old_x, y));
                proof {
                    assert(wide_pairs(out@) =~= before.push((old_x as int, y as int)));
                }
            }
        }
        let ghost mid = wide_pairs(out@);
        out.push((x, y));
        proof {
            assert(wide_pairs(out@) =~= mid.push((x as int, y as int)));
        }
        proof {
            assert(wide_pairs(out@) + roland_r2(a, b, x as int, y as int, bridges) =~= total);
        }
    }
    proof {
        assert(roland_r2(a, b, x as int, y as int, bridges) =~= Seq::<(int, int)>::empty());
        assert(wide_pairs(out@) =~= total);
    }
    out
}

} // verus!

verus! {

/// The pixels of the step-then-plot ellipse with radii `rx`, `ry` around
/// `(cx, cy)`: the four images of each quadrant pixel, pixel by pixel.
pub open spec fn roland_outline(cx: int, cy: int, rx: int, ry: int, bridges: bool) -> Seq<
    (int, int),
> {
    mirror4_all(cx, cy, roland_pixels(rx, ry, bridges))
}

/// The step-then-plot outlines of the rings `i = 0 .. k` of a shrinking
/// fill, ring `i` having radii `rx - i` and `ry - i`; absent rings
/// contribute nothing.
pub open spec fn roland_rings(cx: int, cy: int, rx: int, ry: int, bridges: bool, k: int) -> Seq<
    (int, int),
>
    decreases k,
{
    if k <= 0 {
        Seq::empty()
    } else {
        roland_rings(cx, cy, rx, ry, bridges, k - 1) + (if ring_present(rx, ry, k - 1) {
            roland_outline(cx, cy, rx - (k - 1), ry - (k - 1), bridges)
        } else {
            Seq::empty()
        })
    }
}

/// The ring label (`i + 1`) of every pixel of `roland_rings(.., k)`.
pub open spec fn roland_ring_labels(rx: int, ry: int, bridges: bool, k: int) -> Seq<i32>
    decreases k,
{
    if k <= 0 {
        Seq::empty()
    } else {
        roland_ring_labels(rx, ry, bridges, k - 1) + (if ring_present(rx, ry, k - 1) {
            Seq::new(
                4 * roland_pixels(rx - (k - 1), ry - (k - 1), bridges).len(),
                |i: int| k as i32,
            )
        } else {
            Seq::empty()
        })
    }
}

/// A shrinking step-then-plot fill whose ring arithmetic stays in range:
/// both radii within `2^20` in size, and wide radii whose pixels have
/// `i32` coordinates whenever there is a ring at all.
pub open spec fn roland_fill_fits(cx: int, cy: int, rx: int, ry: int) -> bool {
    &&& -0x10_0000 <= rx <= 0x10_0000
    &&& -0x10_0000 <= ry <= 0x10_0000
    &&& rx >= 1 && ry >= 1 ==> wide_ellipse_fits(cx, cy, rx, ry)
}

/// Smaller positive radii fit whenever the larger ones do.
pub proof fn lemma_wide_fits_shrink(cx: int, cy: int, rx: int, ry: int, rx2: int, ry2: int)
    requires
        wide_ellipse_fits(cx, cy, rx, ry),
        1 <= rx2 <= rx,
        1 <= ry2 <= ry,
    ensures
        wide_ellipse_fits(cx, cy, rx2, ry2),
{
    assert((rx2 * rx2) * (ry2 * ry2) <= (rx * rx) * (ry * ry)) by (nonlinear_arith)
        requires
            1 <= rx2 <= rx,
            1 <= ry2 <= ry,
    ;
}

} // verus!

verus! {

/// Law: in the shrinking step-then-plot fill there is one ring label per
/// point, and each label names a ring that exists: it lies in
/// `1 ..= min(rx, ry)` (and within the `k` rings counted).
pub proof fn lemma_roland_ring_labels(cx: int, cy: int, rx: int, ry: int, bridges: bool, k: int)
    requires
        k <= i32::MAX,
    ensures
        roland_ring_labels(rx, ry, bridges, k).len() == roland_rings(
            cx,
            cy,
            rx,
            ry,
            bridges,
            k,
        ).len(),
        forall|i: int|
            0 <= i < roland_ring_labels(rx, ry, bridges, k).len() ==> {
                let l = #[trigger] roland_ring_labels(rx, ry, bridges, k)[i];
                &&& 1 <= l <= k
                &&& l <= rx
                &&& l <= ry
            },
    decreases k,
{
    if k > 0 {
        lemma_roland_ring_labels(cx, cy, rx, ry, bridges, k - 1);
        let before = roland_ring_labels(rx, ry, bridges, k - 1);
        let labels = roland_ring_labels(rx, ry, bridges, k);
        if ring_present(rx, ry, k - 1) {
            lemma_mirror4_all_index(cx, cy, roland_pixels(rx - (k - 1), ry - (k - 1), bridges));
        }
        assert forall|i: int| 0 <= i < labels.len() implies {
            let l = #[trigger] labels[i];
            &&& 1 <= l <= k
            &&& l <= rx
            &&& l <= ry
        } by {
            if i < before.len() {
                assert(labels[i] == before[i]);
            } else {
                assert(labels[i] == k as i32);
            }
        }
    }
}

} // verus!

verus! {

/// Bridged region 1 holds every pixel of plain region 1.
proof fn lemma_roland_r1_covers(a: int, b: int, c: int, x: int, y: int)
    ensures
        forall|i: int|
            0 <= i < roland_r1(a, b, c, x, y, false).len() ==> roland_r1(
                a,
                b,
                c,
                x,
                y,
                true,
            ).contains(#[trigger] roland_r1(a, b, c, x, y, false)[i]),
    decreases region1_measure(a, b, x, y),
{
    if a >= 0 && b > 0 && in_region1(a, b, x, y) {
        lemma_roland_measure(a, b, x, y);
        lemma_roland_r1_covers(a, b, c, x + 1, y);
        lemma_roland_r1_covers(a, b, c, x + 1, y - 1);
        let p = roland_r1(a, b, c, x, y, false);
        let v = roland_r1(a, b, c, x, y, true);
        assert forall|i: int| 0 <= i < p.len() implies v.contains(#[trigger] p[i]) by {
            if f4_east(a, b, x, y) + c < 0 {
                let t = roland_r1(a, b, c, x + 1, y, false);
                let w = roland_r1(a, b, c, x + 1, y, true);
                assert(p == seq![(x + 1, y)] + t);
                assert(v == seq![(x + 1, y)] + w);
                if i == 0 {
                    assert(v[0] == (x + 1, y));
                } else {
                    assert(p[i] == t[i - 1]);
                    lemma_contains_concat(seq![(x + 1, y)], w, p[i]);
                }
            } else {
                let t = roland_r1(a, b, c, x + 1, y - 1, false);
                let w = roland_r1(a, b, c, x + 1, y - 1, true);
                assert(p =~= seq![(x + 1, y - 1)] + t);
                assert(v =~= seq![(x + 1, y)] + seq![(x + 1, y - 1)] + w);
                if i == 0 {
                    assert(v[1] == (x + 1, y - 1));
                } else {
                    assert(p[i] == t[i - 1]);
                    lemma_contains_concat(seq![(x + 1, y)] + seq![(x + 1, y - 1)], w, p[i]);
                }
            }
        }
    }
}

/// Bridged region 2 holds every pixel of plain region 2.
proof fn lemma_roland_r2_covers(a: int, b: int, x: int, y: int)
    ensures
        forall|i: int|
            0 <= i < roland_r2(a, b, x, y, false).len() ==> roland_r2(a, b, x, y, true).contains(
                #[trigger] roland_r2(a, b, x, y, false)[i],
            ),
    decreases y,
{
    if y > 0 {
        lemma_roland_r2_covers(a, b, x, y - 1);
        lemma_roland_r2_covers(a, b, x + 1, y - 1);
        let p = roland_r2(a, b, x, y, false);
        let v = roland_r2(a, b, x, y, true);
        assert forall|i: int| 0 <= i < p.len() implies v.contains(#[trigger] p[i]) by {
            if f4_south(a, b, x, y) > 0 {
                let t = roland_r2(a, b, x, y - 1, false);
                let w = roland_r2(a, b, x, y - 1, true);
                assert(p == seq![(x, y - 1)] + t);
                assert(v == seq![(x, y - 1)] + w);
                if i == 0 {
                    assert(v[0] == (x, y - 1));
                } else {
                    assert(p[i] == t[i - 1]);
                    lemma_contains_concat(seq![(x, y - 1)], w, p[i]);
                }
            } else {
                let t = roland_r2(a, b, x + 1, y - 1, false);
                let w = roland_r2(a, b, x + 1, y - 1, true);
                assert(p =~= seq![(x + 1, y - 1)] + t);
                assert(v =~= seq![(x, y - 1)] + seq![(x + 1, y - 1)] + w);
                if i == 0 {
                    assert(v[1] == (x + 1, y - 1));
                } else {
                    assert(p[i] == t[i - 1]);
                    lemma_contains_concat(seq![(x, y - 1)] + seq![(x + 1, y - 1)], w, p[i]);
                }
            }
        }
    }
}

/// Law: the bridged step-then-plot walk plots every pixel of the plain one
/// with the same radii; the bridges only add pixels.
pub proof fn lemma_roland_bridges_cover(rx: int, ry: int)
    ensures
        forall|i: int|
            0 <= i < roland_pixels(rx, ry, false).len() ==> roland_pixels(rx, ry, true).contains(
                #[trigger] roland_pixels(rx, ry, false)[i],
            ),
{
    let a = rx * rx;
    let b = ry * ry;
    let c = rounding_offset(a, b, ry);
    let e = roland_r1_end(a, b, c, 0, ry);
    let h = seq![(0int, ry)];
    let p1 = roland_r1(a, b, c, 0, ry, false);
    let p2 = roland_r2(a, b, e.0, e.1, false);
    let v1 = roland_r1(a, b, c, 0, ry, true);
    let v2 = roland_r2(a, b, e.0, e.1, true);
    lemma_roland_r1_covers(a, b, c, 0, ry);
    lemma_roland_r2_covers(a, b, e.0, e.1);
    let p = roland_pixels(rx, ry, false);
    let v = roland_pixels(rx, ry, true);
    assert(p == h + p1 + p2);
    assert(v == h + v1 + v2);
    assert forall|i: int| 0 <= i < p.len() implies v.contains(#[trigger] p[i]) by {
        if i == 0 {
            assert(v[0] == (0int, ry));
        } else if i < 1 + p1.len() {
            assert(p[i] == p1[i - 1]);
            lemma_contains_concat(h, v1, p[i]);
            lemma_contains_concat(h + v1, v2, p[i]);
        } else {
            assert(p[i] == p2[i - 1 - p1.len()]);
            lemma_contains_concat(h + v1, v2, p[i]);
        }
    }
}

} // verus!

verus! {

/// Region 1 of the step-then-plot walk from a pixel with `x, y >= 0` ends
/// at a pixel with `y >= 0`, which is its last plotted pixel when it plots
/// any, and the start pixel when it plots none.
proof fn lemma_roland_r1_last(a: int, b: int, c: int, x: int, y: int, bridges: bool)
    requires
        a >= 0,
        b > 0,
        x >= 0,
        y >= 0,
    ensures
        roland_r1_end(a, b, c, x, y).1 >= 0,
        roland_r1(a, b, c, x, y, bridges).len() == 0 ==> roland_r1_end(a, b, c, x, y) == (x, y),
        roland_r1(a, b, c, x, y, bridges).len() > 0 ==> roland_r1(a, b, c, x, y, bridges).last()
            == roland_r1_end(a, b, c, x, y),
    decreases region1_measure(a, b, x, y),
{
    if in_region1(a, b, x, y) {
        assert(y >= 1) by (nonlinear_arith)
            requires
                b * x < a * y,
                a >= 0,
                b > 0,
                x >= 0,
        ;
        lemma_roland_measure(a, b, x, y);
        lemma_roland_r1_unfold(a, b, c, x, y, bridges);
        let s = roland_r1(a, b, c, x, y, bridges);
        if f4_east(a, b, x, y) + c < 0 {
            lemma_roland_r1_last(a, b, c, x + 1, y, bridges);
            let t = roland_r1(a, b, c, x + 1, y, bridges);
            assert(s == seq![(x + 1, y)] + t);
            if t.len() > 0 {
                assert(s.last() == t.last());
            } else {
                assert(s.last() == (x + 1, y));
            }
        } else {
            lemma_roland_r1_last(a, b, c, x + 1, y - 1, bridges);
            let h: Seq<(int, int)> = (if bridges {
                seq![(x + 1, y)]
            } else {
                Seq::empty()
            }) + seq![(x + 1, y - 1)];
            let t = roland_r1(a, b, c, x + 1, y - 1, bridges);
            assert(s == h + t);
            if t.len() > 0 {
                assert(s.last() == t.last());
            } else {
                assert(s.last() == h.last());
                assert(h.last() == (x + 1, y - 1));
            }
        }
    }
}

/// Region 2 of the step-then-plot walk from a pixel above the x axis plots
/// at least one pixel, and its last pixel lies on the x axis.
proof fn lemma_roland_r2_last(a: int, b: int, x: int, y: int, bridges: bool)
    requires
        y > 0,
    ensures
        roland_r2(a, b, x, y, bridges).len() > 0,
        roland_r2(a, b, x, y, bridges).last().1 == 0,
    decreases y,
{
    let s = roland_r2(a, b, x, y, bridges);
    if f4_south(a, b, x, y) > 0 {
        let t = roland_r2(a, b, x, y - 1, bridges);
        assert(s == seq![(x, y - 1)] + t);
        if y - 1 > 0 {
            lemma_roland_r2_last(a, b, x, y - 1, bridges);
            assert(s.last() == t.last());
        } else {
            assert(t.len() == 0);
            assert(s.last() == (x, y - 1));
        }
    } else {
        let h: Seq<(int, int)> = (if bridges {
            seq![(x, y - 1)]
        } else {
            Seq::empty()
        }) + seq![(x + 1, y - 1)];
        let t = roland_r2(a, b, x + 1, y - 1, bridges);
        assert(s == h + t);
        if y - 1 > 0 {
            lemma_roland_r2_last(a, b, x + 1, y - 1, bridges);
            assert(s.last() == t.last());
        } else {
            assert(t.len() == 0);
            assert(s.last() == h.last());
            assert(h.last() == (x + 1, y - 1));
        }
    }
}

/// Law: the step-then-plot quadrant runs down to the x axis: for every
/// `ry >= 0` its last pixel has `y = 0`, with or without bridges.
pub proof fn lemma_roland_ends_on_axis(rx: int, ry: int, bridges: bool)
    requires
        ry >= 0,
    ensures
        roland_pixels(rx, ry, bridges).last().1 == 0,
{
    let a = rx * rx;
    let b = ry * ry;
    let c = rounding_offset(a, b, ry);
    let e = roland_r1_end(a, b, c, 0, ry);
    let h = seq![(0int, ry)];
    let p1 = roland_r1(a, b, c, 0, ry, bridges);
    let p2 = roland_r2(a, b, e.0, e.1, bridges);
    let p = roland_pixels(rx, ry, bridges);
    assert(p == h + p1 + p2);
    assert(a >= 0) by (nonlinear_arith)
        requires
            a == rx * rx,
    ;
    if ry == 0 {
        assert(b == 0);
        assert(p1 == Seq::<(int, int)>::empty());
        assert(e == (0int, 0int));
        assert(p2 == Seq::<(int, int)>::empty());
        assert(p.last() == (0int, 0int));
    } else {
        assert(b > 0) by (nonlinear_arith)
            requires
                b == ry * ry,
                ry >= 1,
        ;
        lemma_roland_r1_last(a, b, c, 0, ry, bridges);
        if e.1 > 0 {
            lemma_roland_r2_last(a, b, e.0, e.1, bridges);
            assert(p.last() == p2.last());
        } else {
            assert(p2.len() == 0);
            assert(p1.len() > 0);
            assert(p.last() == p1.last());
        }
    }
}

} // verus!

verus! {

/// The step-then-plot rings up to `i` are a prefix of those up to `k >= i`,
/// with their labels.
proof fn lemma_roland_rings_prefix(
    cx: int,
    cy: int,
    rx: int,
    ry: int,
    bridges: bool,
    i: int,
    k: int,
)
    requires
        0 <= i <= k,
        k <= i32::MAX,
    ensures
        roland_rings(cx, cy, rx, ry, bridges, i).len() <= roland_rings(
            cx,
            cy,
            rx,
            ry,
            bridges,
            k,
        ).len(),
        roland_rings(cx, cy, rx, ry, bridges, k).subrange(
            0,
            roland_rings(cx, cy, rx, ry, bridges, i).len() as int,
        ) == roland_rings(cx, cy, rx, ry, bridges, i),
        roland_ring_labels(rx, ry, bridges, k).subrange(
            0,
            roland_rings(cx, cy, rx, ry, bridges, i).len() as int,
        ) == roland_ring_labels(rx, ry, bridges, i),
    decreases k - i,
{
    lemma_roland_ring_labels(cx, cy, rx, ry, bridges, k);
    lemma_roland_ring_labels(cx, cy, rx, ry, bridges, i);
    let m = roland_rings(cx, cy, rx, ry, bridges, i).len() as int;
    if i < k {
        lemma_roland_rings_prefix(cx, cy, rx, ry, bridges, i, k - 1);
        lemma_roland_ring_labels(cx, cy, rx, ry, bridges, k - 1);
        assert(roland_rings(cx, cy, rx, ry, bridges, k).subrange(0, m) =~= roland_rings(
            cx,
            cy,
            rx,
            ry,
            bridges,
            k - 1,
        ).subrange(0, m));
        assert(roland_ring_labels(rx, ry, bridges, k).subrange(0, m) =~= roland_ring_labels(
            rx,
            ry,
            bridges,
            k - 1,
        ).subrange(0, m));
    } else {
        assert(roland_rings(cx, cy, rx, ry, bridges, k).subrange(0, m) =~= roland_rings(
            cx,
            cy,
            rx,
            ry,
            bridges,
            k,
        ));
        assert(roland_ring_labels(rx, ry, bridges, k).subrange(0, m) =~= roland_ring_labels(
            rx,
            ry,
            bridges,
            k,
        ));
    }
}

/// Law: in the shrinking step-then-plot fill, ring `i` is drawn whenever
/// both reduced radii `rx - i` and `ry - i` are at least 1: it occupies the
/// pixels after the rings before it, and they are exactly the step-then-plot
/// outline with those radii around the same center, all labelled `i + 1`.
pub proof fn lemma_roland_fill_ring(
    cx: int,
    cy: int,
    rx: int,
    ry: int,
    bridges: bool,
    k: int,
    i: int,
)
    requires
        0 <= i < k <= i32::MAX,
        rx - i >= 1,
        ry - i >= 1,
    ensures
        ({
            let start = roland_rings(cx, cy, rx, ry, bridges, i).len() as int;
            let end = start + roland_outline(cx, cy, rx - i, ry - i, bridges).len();
            &&& end <= roland_rings(cx, cy, rx, ry, bridges, k).len()
            &&& roland_rings(cx, cy, rx, ry, bridges, k).subrange(start, end) == roland_outline(
                cx,
                cy,
                rx - i,
                ry - i,
                bridges,
            )
            &&& roland_ring_labels(rx, ry, bridges, k).subrange(start, end) == Seq::new(
                roland_outline(cx, cy, rx - i, ry - i, bridges).len(),
                |j: int| (i + 1) as i32,
            )
        }),
{
    lemma_roland_rings_prefix(cx, cy, rx, ry, bridges, i + 1, k);
    lemma_roland_ring_labels(cx, cy, rx, ry, bridges, i + 1);
    lemma_roland_ring_labels(cx, cy, rx, ry, bridges, i);
    lemma_mirror4_all_index(cx, cy, roland_pixels(rx - i, ry - i, bridges));
    let before = roland_rings(cx, cy, rx, ry, bridges, i);
    let upto = roland_rings(cx, cy, rx, ry, bridges, i + 1);
    let o = roland_outline(cx, cy, rx - i, ry - i, bridges);
    let start = before.len() as int;
    let end = start + o.len();
    assert(upto == before + o);
    assert(roland_rings(cx, cy, rx, ry, bridges, k).subrange(start, end) =~= upto.subrange(
        start,
        end,
    ));
    assert(upto.subrange(start, end) =~= o);
    lemma_roland_ring_labels(cx, cy, rx, ry, bridges, k);
    let lk = roland_ring_labels(rx, ry, bridges, k);
    let lu = roland_ring_labels(rx, ry, bridges, i + 1);
    assert forall|j: int| start <= j < end implies lk[j] == lu[j] by {
        assert(lk.subrange(0, upto.len() as int)[j] == lk[j]);
    }
    assert(lk.subrange(start, end) =~= lu.subrange(start, end));
    assert(lu.subrange(start, end) =~= Seq::new(o.len(), |j: int| (i + 1) as i32));
}

} // verus!

verus! {

/// The pixel `(x, y)` is not buried inside the ellipse, up to the rounding
/// of the step-then-plot decision value: four times the implicit function
/// is at least -2 at the midpoint above it, `(x, y + 1/2)`, or non-negative
/// at the midpoint to its right, `(x + 1/2, y)`.
pub open spec fn near_curve(a: int, b: int, x: int, y: int) -> bool {
    f4_above(a, b, x, y) >= -2 || f4_right(a, b, x, y) >= 0
}

/// Plain region 1 of the step-then-plot walk from a pixel whose upper
/// midpoint value is at least -2 plots only such pixels, and ends at such
/// a pixel, past the slope -1.
proof fn lemma_roland_r1_touches(a: int, b: int, c: int, x: int, y: int)
    requires
        a >= 0,
        b > 0,
        x >= 0,
        y >= 0,
        -2 <= c <= 2,
        f4_above(a, b, x, y) >= -2,
    ensures
        forall|i: int|
            0 <= i < roland_r1(a, b, c, x, y, false).len() ==> #[trigger] f4_above(
                a,
                b,
                roland_r1(a, b, c, x, y, false)[i].0,
                roland_r1(a, b, c, x, y, false)[i].1,
            ) >= -2,
        f4_above(a, b, roland_r1_end(a, b, c, x, y).0, roland_r1_end(a, b, c, x, y).1) >= -2,
        !in_region1(a, b, roland_r1_end(a, b, c, x, y).0, roland_r1_end(a, b, c, x, y).1),
    decreases region1_measure(a, b, x, y),
{
    if in_region1(a, b, x, y) {
        assert(y >= 1) by (nonlinear_arith)
            requires
                b * x < a * y,
                a >= 0,
                b > 0,
                x >= 0,
        ;
        assert(b * (2 * x + 1) >= 0) by (nonlinear_arith)
            requires
                b > 0,
                x >= 0,
        ;
        lemma_midpoint_values(a, b, x, y);
        lemma_roland_measure(a, b, x, y);
        lemma_roland_r1_unfold(a, b, c, x, y, false);
        let s = roland_r1(a, b, c, x, y, false);
        if f4_east(a, b, x, y) + c < 0 {
            lemma_roland_r1_touches(a, b, c, x + 1, y);
            let t = roland_r1(a, b, c, x + 1, y, false);
            assert(s == seq![(x + 1, y)] + t);
            assert forall|i: int| 0 <= i < s.len() implies #[trigger] f4_above(
                a,
                b,
                s[i].0,
                s[i].1,
            ) >= -2 by {
                if i > 0 {
                    assert(s[i] == t[i - 1]);
                }
            }
        } else {
            lemma_roland_r1_touches(a, b, c, x + 1, y - 1);
            let t = roland_r1(a, b, c, x + 1, y - 1, false);
            assert(s =~= seq![(x + 1, y - 1)] + t);
            assert forall|i: int| 0 <= i < s.len() implies #[trigger] f4_above(
                a,
                b,
                s[i].0,
                s[i].1,
            ) >= -2 by {
                if i > 0 {
                    assert(s[i] == t[i - 1]);
                }
            }
        }
    }
}

/// Plain region 2 of the step-then-plot walk from a pixel past the slope -1
/// that is near the curve plots only pixels near the curve.
proof fn lemma_roland_r2_touches(a: int, b: int, x: int, y: int)
    requires
        a >= 0,
        b >= 1,
        a * y <= b * x,
        near_curve(a, b, x, y),
    ensures
        forall|i: int|
            0 <= i < roland_r2(a, b, x, y, false).len() ==> #[trigger] near_curve(
                a,
                b,
                roland_r2(a, b, x, y, false)[i].0,
                roland_r2(a, b, x, y, false)[i].1,
            ),
    decreases y,
{
    if y > 0 {
        lemma_midpoint_values(a, b, x, y);
        let s = roland_r2(a, b, x, y, false);
        if f4_south(a, b, x, y) > 0 {
            assert(near_curve(a, b, x, y - 1));
            lemma_roland_r2_touches(a, b, x, y - 1);
            let t = roland_r2(a, b, x, y - 1, false);
            assert(s == seq![(x, y - 1)] + t);
            assert forall|i: int| 0 <= i < s.len() implies #[trigger] near_curve(
                a,
                b,
                s[i].0,
                s[i].1,
            ) by {
                if i > 0 {
                    assert(s[i] == t[i - 1]);
                }
            }
        } else {
            assert(near_curve(a, b, x + 1, y - 1));
            lemma_roland_r2_touches(a, b, x + 1, y - 1);
            let t = roland_r2(a, b, x + 1, y - 1, false);
            assert(s =~= seq![(x + 1, y - 1)] + t);
            assert forall|i: int| 0 <= i < s.len() implies #[trigger] near_curve(
                a,
                b,
                s[i].0,
                s[i].1,
            ) by {
                if i > 0 {
                    assert(s[i] == t[i - 1]);
                }
            }
        }
    }
}

/// Law: no pixel of the plain step-then-plot ellipse is buried inside it.
/// For every quadrant pixel `(x, y)` with radii `rx`, `ry`, four times the
/// implicit function `ry² u² + rx² v² - rx² ry²` is at least -2 at the
/// midpoint above it (the slack of the rounded start value), or
/// non-negative at the midpoint to its right.
pub proof fn lemma_roland_hugs_ellipse(rx: int, ry: int)
    ensures
        forall|i: int|
            0 <= i < roland_pixels(rx, ry, false).len() ==> #[trigger] near_curve(
                rx * rx,
                ry * ry,
                roland_pixels(rx, ry, false)[i].0,
                roland_pixels(rx, ry, false)[i].1,
            ),
{
    let a = rx * rx;
    let b = ry * ry;
    assert(a >= 0 && b >= 0) by (nonlinear_arith)
        requires
            a == rx * rx,
            b == ry * ry,
    ;
    let c = rounding_offset(a, b, ry);
    let e = roland_r1_end(a, b, c, 0, ry);
    let h = seq![(0int, ry)];
    let p1 = roland_r1(a, b, c, 0, ry, false);
    let p2 = roland_r2(a, b, e.0, e.1, false);
    let p = roland_pixels(rx, ry, false);
    assert(p == h + p1 + p2);
    if ry <= 0 {
        assert(f4_right(a, b, 0, ry) == b) by (nonlinear_arith)
            requires
                b == ry * ry,
        ;
        assert(b * 0 >= a * ry) by (nonlinear_arith)
            requires
                ry <= 0,
                a >= 0,
        ;
        assert(p1 == Seq::<(int, int)>::empty());
        assert(e == (0int, ry));
        assert(p2 == Seq::<(int, int)>::empty());
        assert(p =~= h);
        assert(near_curve(a, b, 0, ry));
    } else {
        assert(b >= 1) by (nonlinear_arith)
            requires
                b == ry * ry,
                ry >= 1,
        ;
        assert(f4_above(a, b, 0, ry) == a * (4 * ry + 1)) by (nonlinear_arith)
            requires
                b == ry * ry,
        ;
        assert(a * (4 * ry + 1) >= 0) by (nonlinear_arith)
            requires
                a >= 0,
                ry >= 0,
        ;
        lemma_rounding_offset(f4_east(a, b, 0, ry));
        lemma_roland_r1_touches(a, b, c, 0, ry);
        assert(a * e.1 <= b * e.0);
        lemma_roland_r2_touches(a, b, e.0, e.1);
        assert forall|i: int| 0 <= i < p.len() implies #[trigger] near_curve(
            a,
            b,
            p[i].0,
            p[i].1,
        ) by {
            if i == 0 {
                assert(p[0] == (0int, ry));
            } else if i < 1 + p1.len() {
                assert(p[i] == p1[i - 1]);
                assert(f4_above(a, b, p1[i - 1].0, p1[i - 1].1) >= -2);
            } else {
                assert(p[i] == p2[i - 1 - p1.len()]);
            }
        }
    }
}

} // verus!

verus! {

/// The pixel the step-then-plot walk moves to from `(x, y)`: in region 1
/// right, staying on the row when the midpoint value with the rounding
/// offset `c` is negative; past it down, moving right unless the midpoint
/// below lies outside.
pub open spec fn roland_step(a: int, b: int, c: int, x: int, y: int) -> (int, int) {
    if b * x < a * y {
        if f4_east(a, b, x, y) + c < 0 {
            (x + 1, y)
        } else {
            (x + 1, y - 1)
        }
    } else {
        if f4_south(a, b, x, y) > 0 {
            (x, y - 1)
        } else {
            (x + 1, y - 1)
        }
    }
}

/// Plain region 1 of the step-then-plot walk from `(x, y)`: each plotted
/// pixel is the step from the one before it (from `(x, y)` for the first),
/// taken while that one lies in region 1.
proof fn lemma_roland_r1_chain(a: int, b: int, c: int, x: int, y: int)
    requires
        a >= 0,
        b > 0,
    ensures
        roland_r1(a, b, c, x, y, false).len() > 0 ==> in_region1(a, b, x, y) && roland_r1(
            a,
            b,
            c,
            x,
            y,
            false,
        )[0] == roland_step(a, b, c, x, y),
        forall|i: int|
            0 <= i < roland_r1(a, b, c, x, y, false).len() - 1 ==> {
                let p = #[trigger] roland_r1(a, b, c, x, y, false)[i];
                &&& in_region1(a, b, p.0, p.1)
                &&& roland_r1(a, b, c, x, y, false)[i + 1] == roland_step(a, b, c, p.0, p.1)
            },
        !in_region1(a, b, roland_r1_end(a, b, c, x, y).0, roland_r1_end(a, b, c, x, y).1),
    decreases region1_measure(a, b, x, y),
{
    if in_region1(a, b, x, y) {
        lemma_roland_measure(a, b, x, y);
        lemma_roland_r1_unfold(a, b, c, x, y, false);
        let s = roland_r1(a, b, c, x, y, false);
        let n = roland_step(a, b, c, x, y);
        lemma_roland_r1_chain(a, b, c, n.0, n.1);
        let t = roland_r1(a, b, c, n.0, n.1, false);
        assert(s =~= seq![n] + t);
        assert forall|i: int| 0 <= i < s.len() - 1 implies {
            let p = #[trigger] s[i];
            &&& in_region1(a, b, p.0, p.1)
            &&& s[i + 1] == roland_step(a, b, c, p.0, p.1)
        } by {
            assert(s[i + 1] == t[i]);
            if i == 0 {
                assert(s[0] == n);
            } else {
                assert(s[i] == t[i - 1]);
            }
        }
    }
}

/// Plain region 2 of the step-then-plot walk from a pixel past the slope
/// -1 (`a y <= b x`): each plotted pixel is the step from the one before it
/// (from `(x, y)` for the first), taken while that one lies above the axis.
proof fn lemma_roland_r2_chain(a: int, b: int, x: int, y: int)
    requires
        a >= 0,
        b >= 0,
        a * y <= b * x,
    ensures
        roland_r2(a, b, x, y, false).len() > 0 ==> !in_region1(a, b, x, y) && roland_r2(
            a,
            b,
            x,
            y,
            false,
        )[0] == roland_step(a, b, 0, x, y),
        forall|i: int|
            0 <= i < roland_r2(a, b, x, y, false).len() - 1 ==> {
                let p = #[trigger] roland_r2(a, b, x, y, false)[i];
                &&& !in_region1(a, b, p.0, p.1)
                &&& roland_r2(a, b, x, y, false)[i + 1] == roland_step(a, b, 0, p.0, p.1)
            },
    decreases y,
{
    if y > 0 {
        let s = roland_r2(a, b, x, y, false);
        let n = roland_step(a, b, 0, x, y);
        assert(n == if f4_south(a, b, x, y) > 0 {
            (x, y - 1)
        } else {
            (x + 1, y - 1)
        });
        assert(a * n.1 <= b * n.0) by (nonlinear_arith)
            requires
                a >= 0,
                b >= 0,
                a * y <= b * x,
                n.1 == y - 1,
                n.0 == x || n.0 == x + 1,
        ;
        lemma_roland_r2_chain(a, b, n.0, n.1);
        let t = roland_r2(a, b, n.0, n.1, false);
        assert(s =~= seq![n] + t);
        assert forall|i: int| 0 <= i < s.len() - 1 implies {
            let p = #[trigger] s[i];
            &&& !in_region1(a, b, p.0, p.1)
            &&& s[i + 1] == roland_step(a, b, 0, p.0, p.1)
        } by {
            assert(s[i + 1] == t[i]);
            if i == 0 {
                assert(s[0] == n);
            } else {
                assert(s[i] == t[i - 1]);
            }
        }
    }
}

/// Law: the step-then-plot midpoint rule. With `a = rx²`, `b = ry²` and the
/// rounding offset `c` of the region-1 start value, the plain walk starts
/// at `(0, ry)` and each pixel `(x, y)` is followed by the one the midpoint
/// test picks: while `b x < a y`, `(x + 1, y)` when `f4_east + c < 0` and
/// `(x + 1, y - 1)` otherwise; past that, `(x, y - 1)` when the midpoint
/// `(x + 1/2, y - 1)` lies outside (`f4_south > 0`) and `(x + 1, y - 1)`
/// otherwise.
pub proof fn lemma_roland_midpoint_rule(rx: int, ry: int)
    ensures
        roland_pixels(rx, ry, false)[0] == (0int, ry),
        forall|i: int|
            0 <= i < roland_pixels(rx, ry, false).len() - 1 ==> {
                let p = #[trigger] roland_pixels(rx, ry, false)[i];
                let a = rx * rx;
                let b = ry * ry;
                roland_pixels(rx, ry, false)[i + 1] == if b * p.0 < a * p.1 {
                    if f4_east(a, b, p.0, p.1) + rounding_offset(a, b, ry) < 0 {
                        (p.0 + 1, p.1)
                    } else {
                        (p.0 + 1, p.1 - 1)
                    }
                } else {
                    if f4_south(a, b, p.0, p.1) > 0 {
                        (p.0, p.1 - 1)
                    } else {
                        (p.0 + 1, p.1 - 1)
                    }
                }
            },
{
    let a = rx * rx;
    let b = ry * ry;
    assert(a >= 0 && b >= 0) by (nonlinear_arith)
        requires
            a == rx * rx,
            b == ry * ry,
    ;
    let c = rounding_offset(a, b, ry);
    let e = roland_r1_end(a, b, c, 0, ry);
    let h = seq![(0int, ry)];
    let p1 = roland_r1(a, b, c, 0, ry, false);
    let p2 = roland_r2(a, b, e.0, e.1, false);
    let p = roland_pixels(rx, ry, false);
    assert(p == h + p1 + p2);
    if ry <= 0 {
        assert(b * 0 >= a * ry) by (nonlinear_arith)
            requires
                ry <= 0,
                a >= 0,
        ;
        assert(p1 == Seq::<(int, int)>::empty());
        assert(e == (0int, ry));
        assert(p2 == Seq::<(int, int)>::empty());
        assert(p =~= h);
    } else {
        assert(b > 0) by (nonlinear_arith)
            requires
                b == ry * ry,
                ry >= 1,
        ;
        lemma_roland_r1_chain(a, b, c, 0, ry);
        lemma_roland_r1_last(a, b, c, 0, ry, false);
        assert(a * e.1 <= b * e.0);
        lemma_roland_r2_chain(a, b, e.0, e.1);
        let m = p1.len() as int;
        assert(p[0] == (0int, ry));
        assert forall|i: int| 0 <= i < p.len() - 1 implies {
            let q = #[trigger] p[i];
            p[i + 1] == if b * q.0 < a * q.1 {
                if f4_east(a, b, q.0, q.1) + c < 0 {
                    (q.0 + 1, q.1)
                } else {
                    (q.0 + 1, q.1 - 1)
                }
            } else {
                if f4_south(a, b, q.0, q.1) > 0 {
                    (q.0, q.1 - 1)
                } else {
                    (q.0 + 1, q.1 - 1)
                }
            }
        } by {
            let q = p[i];
            if i < m {
                assert(p[i + 1] == p1[i]);
                if i == 0 {
                    assert(q == (0int, ry));
                    assert(p1[0] == roland_step(a, b, c, 0, ry));
                } else {
                    assert(q == p1[i - 1]);
                    assert(p1[i] == roland_step(a, b, c, q.0, q.1));
                }
            } else {
                let j = i - m;
                assert(p[i + 1] == p2[j]);
                if j == 0 {
                    if m == 0 {
                        assert(q == (0int, ry));
                    } else {
                        assert(q == p1[m - 1]);
                    }
                    assert(q == e);
                    assert(p2[0] == roland_step(a, b, 0, e.0, e.1));
                } else {
                    assert(q == p2[j - 1]);
                    assert(p2[j] == roland_step(a, b, 0, q.0, q.1));
                }
            }
        }
    }
}

} // verus!

verus! {

/// In region 1, beside each diagonal step of the plain walk (from `(x, y)`
/// for the first, then from each plotted pixel), the bridged walk plots
/// the pixel `(x + 1, y)` to the right of where the step started.
proof fn lemma_roland_r1_bridge_pairs(a: int, b: int, c: int, x: int, y: int)
    ensures
        roland_r1(a, b, c, x, y, false).len() > 0 && roland_r1(a, b, c, x, y, false)[0] == (
        x + 1, y - 1) ==> roland_r1(a, b, c, x, y, true).contains((x + 1, y)),
        forall|i: int|
            0 <= i < roland_r1(a, b, c, x, y, false).len() - 1 ==> {
                let p = #[trigger] roland_r1(a, b, c, x, y, false)[i];
                roland_r1(a, b, c, x, y, false)[i + 1] == (p.0 + 1, p.1 - 1) ==> roland_r1(
                    a,
                    b,
                    c,
                    x,
                    y,
                    true,
                ).contains((p.0 + 1, p.1))
            },
    decreases region1_measure(a, b, x, y),
{
    if a >= 0 && b > 0 && in_region1(a, b, x, y) {
        lemma_roland_measure(a, b, x, y);
        lemma_roland_r1_unfold(a, b, c, x, y, false);
        lemma_roland_r1_unfold(a, b, c, x, y, true);
        let s = roland_r1(a, b, c, x, y, false);
        let v = roland_r1(a, b, c, x, y, true);
        let (nx, ny) = if f4_east(a, b, x, y) + c < 0 {
            (x + 1, y)
        } else {
            (x + 1, y - 1)
        };
        lemma_roland_r1_bridge_pairs(a, b, c, nx, ny);
        let t = roland_r1(a, b, c, nx, ny, false);
        let w = roland_r1(a, b, c, nx, ny, true);
        let h: Seq<(int, int)> = if f4_east(a, b, x, y) + c < 0 {
            seq![(x + 1, y)]
        } else {
            seq![(x + 1, y), (x + 1, y - 1)]
        };
        assert(s =~= seq![(nx, ny)] + t);
        assert(v =~= h + w);
        if s[0] == (x + 1, y - 1) {
            assert(v[0] == (x + 1, y));
        }
        assert forall|i: int| 0 <= i < s.len() - 1 implies {
            let p = #[trigger] s[i];
            s[i + 1] == (p.0 + 1, p.1 - 1) ==> v.contains((p.0 + 1, p.1))
        } by {
            let p = s[i];
            assert(s[i + 1] == t[i]);
            if s[i + 1] == (p.0 + 1, p.1 - 1) {
                if i == 0 {
                    assert(p == (nx, ny));
                    assert(w.contains((nx + 1, ny)));
                } else {
                    assert(p == t[i - 1]);
                    assert(w.contains((p.0 + 1, p.1)));
                }
                lemma_contains_concat(h, w, (p.0 + 1, p.1));
            }
        }
    }
}

/// In region 2, beside each diagonal step of the plain walk (from `(x, y)`
/// for the first, then from each plotted pixel), the bridged walk plots
/// the pixel `(x, y - 1)` below where the step started.
proof fn lemma_roland_r2_bridge_pairs(a: int, b: int, x: int, y: int)
    ensures
        roland_r2(a, b, x, y, false).len() > 0 && roland_r2(a, b, x, y, false)[0] == (x + 1, y
            - 1) ==> roland_r2(a, b, x, y, true).contains((x, y - 1)),
        forall|i: int|
            0 <= i < roland_r2(a, b, x, y, false).len() - 1 ==> {
                let p = #[trigger] roland_r2(a, b, x, y, false)[i];
                roland_r2(a, b, x, y, false)[i + 1] == (p.0 + 1, p.1 - 1) ==> roland_r2(
                    a,
                    b,
                    x,
                    y,
                    true,
                ).contains((p.0, p.1 - 1))
            },
    decreases y,
{
    if y > 0 {
        let s = roland_r2(a, b, x, y, false);
        let v = roland_r2(a, b, x, y, true);
        let (nx, ny) = if f4_south(a, b, x, y) > 0 {
            (x, y - 1)
        } else {
            (x + 1, y - 1)
        };
        lemma_roland_r2_bridge_pairs(a, b, nx, ny);
        let t = roland_r2(a, b, nx, ny, false);
        let w = roland_r2(a, b, nx, ny, true);
        let h: Seq<(int, int)> = if f4_south(a, b, x, y) > 0 {
            seq![(x, y - 1)]
        } else {
            seq![(x, y - 1), (x + 1, y - 1)]
        };
        assert(s =~= seq![(nx, ny)] + t);
        assert(v =~= h + w);
        if s[0] == (x + 1, y - 1) {
            assert(v[0] == (x, y - 1));
        }
        assert forall|i: int| 0 <= i < s.len() - 1 implies {
            let p = #[trigger] s[i];
            s[i + 1] == (p.0 + 1, p.1 - 1) ==> v.contains((p.0, p.1 - 1))
        } by {
            let p = s[i];
            assert(s[i + 1] == t[i]);
            if s[i + 1] == (p.0 + 1, p.1 - 1) {
                if i == 0 {
                    assert(p == (nx, ny));
                    assert(w.contains((nx, ny - 1)));
                } else {
                    assert(p == t[i - 1]);
                    assert(w.contains((p.0, p.1 - 1)));
                }
                lemma_contains_concat(h, w, (p.0, p.1 - 1));
            }
        }
    }
}

/// Law: the bridges of the step-then-plot walk close every diagonal step.
/// With `a = rx²` and `b = ry²`, wherever the plain walk steps diagonally
/// from `(x, y)` to `(x + 1, y - 1)`, the bridged walk with the same radii
/// plots the corner pixel: `(x + 1, y)` while `b x < a y`, and `(x, y - 1)`
/// past that.
pub proof fn lemma_roland_bridges_close_steps(rx: int, ry: int)
    ensures
        forall|i: int|
            0 <= i < roland_pixels(rx, ry, false).len() - 1 ==> {
                let p = #[trigger] roland_pixels(rx, ry, false)[i];
                roland_pixels(rx, ry, false)[i + 1] == (p.0 + 1, p.1 - 1) ==> roland_pixels(
                    rx,
                    ry,
                    true,
                ).contains(
                    if (ry * ry) * p.0 < (rx * rx) * p.1 {
                        (p.0 + 1, p.1)
                    } else {
                        (p.0, p.1 - 1)
                    },
                )
            },
{
    let a = rx * rx;
    let b = ry * ry;
    assert(a >= 0 && b >= 0) by (nonlinear_arith)
        requires
            a == rx * rx,
            b == ry * ry,
    ;
    let c = rounding_offset(a, b, ry);
    let e = roland_r1_end(a, b, c, 0, ry);
    let h = seq![(0int, ry)];
    let p1 = roland_r1(a, b, c, 0, ry, false);
    let p2 = roland_r2(a, b, e.0, e.1, false);
    let v1 = roland_r1(a, b, c, 0, ry, true);
    let v2 = roland_r2(a, b, e.0, e.1, true);
    let p = roland_pixels(rx, ry, false);
    let v = roland_pixels(rx, ry, true);
    assert(p == h + p1 + p2);
    assert(v == h + v1 + v2);
    if ry <= 0 {
        assert(b * 0 >= a * ry) by (nonlinear_arith)
            requires
                ry <= 0,
                a >= 0,
        ;
        assert(p1 == Seq::<(int, int)>::empty());
        assert(e == (0int, ry));
        assert(p2 == Seq::<(int, int)>::empty());
        assert(p =~= h);
    } else {
        assert(b > 0) by (nonlinear_arith)
            requires
                b == ry * ry,
                ry >= 1,
        ;
        lemma_roland_r1_chain(a, b, c, 0, ry);
        lemma_roland_r1_last(a, b, c, 0, ry, false);
        assert(a * e.1 <= b * e.0);
        lemma_roland_r2_chain(a, b, e.0, e.1);
        lemma_roland_r1_bridge_pairs(a, b, c, 0, ry);
        lemma_roland_r2_bridge_pairs(a, b, e.0, e.1);
        let m = p1.len() as int;
        assert forall|i: int| 0 <= i < p.len() - 1 implies {
            let q = #[trigger] p[i];
            p[i + 1] == (q.0 + 1, q.1 - 1) ==> v.contains(
                if b * q.0 < a * q.1 {
                    (q.0 + 1, q.1)
                } else {
                    (q.0, q.1 - 1)
                },
            )
        } by {
            let q = p[i];
            if p[i + 1] == (q.0 + 1, q.1 - 1) {
                if i < m {
                    assert(p[i + 1] == p1[i]);
                    if i == 0 {
                        assert(q == (0int, ry));
                    } else {
                        assert(q == p1[i - 1]);
                        assert(p1[i] == p1[(i - 1) + 1]);
                    }
                    assert(in_region1(a, b, q.0, q.1));
                    assert(v1.contains((q.0 + 1, q.1)));
                    lemma_contains_concat(h, v1, (q.0 + 1, q.1));
                    lemma_contains_concat(h + v1, v2, (q.0 + 1, q.1));
                } else {
                    let j = i - m;
                    assert(p[i + 1] == p2[j]);
                    if j == 0 {
                        if m == 0 {
                            assert(q == (0int, ry));
                        } else {
                            assert(q == p1[m - 1]);
                        }
                        assert(q == e);
                    } else {
                        assert(q == p2[j - 1]);
                        assert(p2[j] == p2[(j - 1) + 1]);
                    }
                    assert(!in_region1(a, b, q.0, q.1));
                    assert(v2.contains((q.0, q.1 - 1)));
                    lemma_contains_concat(h + v1, v2, (q.0, q.1 - 1));
                }
            }
        }
    }
}

} // verus!

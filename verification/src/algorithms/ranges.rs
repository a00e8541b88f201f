//! Run-time tests of the ranges in which the rasterisers' integer arithmetic
//! stays exact: a caller that cannot know its inputs in advance tests them
//! here before it computes.
use vstd::prelude::*;

use crate::algorithms::circle::circle_base::circle_decision_fits;
use crate::algorithms::circle_walk::{circle_fits, MAX_RADIUS};
use crate::algorithms::disc::baseline_fits;
use crate::algorithms::ellipse::ellipse_base::{ellipse_decision_fits, fits_i64};
use crate::algorithms::ellipse::own_fill_ellipse::own_fill_fits;
use crate::algorithms::ellipse_walk::{abs, ellipse_fits};
use crate::algorithms::fits_i32;
use crate::algorithms::line::midpoint_line::line_fits;
use crate::algorithms::roland_walk::roland_fill_fits;
use crate::algorithms::virtual_walk::virtual_fill_fits;

verus! {

/// A product of factors bounded in size is bounded by the product of the
/// bounds.
proof fn lemma_mul_within(p: int, q: int, pm: int, qm: int)
    requires
        -pm <= p <= pm,
        -qm <= q <= qm,
    ensures
        -(pm * qm) <= p * q <= pm * qm,
{
    assert(-(pm * qm) <= p * q <= pm * qm) by (nonlinear_arith)
        requires
            -pm <= p <= pm,
            -qm <= q <= qm,
    ;
}

/// Whether `v` is representable as an `i32`.
fn in_i32(v: i64) -> (b: bool)
    ensures
        b == fits_i32(v as int),
{
    -0x8000_0000 <= v && v <= 0x7fff_ffff
}

/// Whether `v` is representable as an `i64`.
fn in_i64(v: i128) -> (b: bool)
    ensures
        b == fits_i64(v as int),
{
    -0x8000_0000_0000_0000 <= v && v <= 0x7fff_ffff_ffff_ffff
}

/// Whether the box `cx ± w` by `cy ± h` has `i32` corners.
fn box_in_i32(cx: i32, cy: i32, w: i64, h: i64) -> (b: bool)
    requires
        -0x1_0000_0000 <= w <= 0x1_0000_0000,
        -0x1_0000_0000 <= h <= 0x1_0000_0000,
    ensures
        b == (fits_i32(cx - w) && fits_i32(cx + w) && fits_i32(cy - h) && fits_i32(cy + h)),
{
    in_i32(cx as i64 - w) && in_i32(cx as i64 + w) && in_i32(cy as i64 - h) && in_i32(
        cy as i64 + h,
    )
}

/// Whether the midpoint circle walks accept radius `r` around `(cx, cy)`.
pub fn circle_fits_check(cx: i32, cy: i32, r: i32) -> (b: bool)
    ensures
        b == circle_fits(cx as int, cy as int, r as int),
{
    -MAX_RADIUS <= r && r <= MAX_RADIUS && (r < 0 || box_in_i32(cx, cy, r as i64, r as i64))
}

/// Whether the baseline circle accepts radius `r` around `(cx, cy)`.
pub fn baseline_fits_check(cx: i32, cy: i32, r: i32) -> (b: bool)
    ensures
        b == baseline_fits(cx as int, cy as int, r as int),
{
    -46340 <= r && r <= 32767 && (r < 0 || box_in_i32(cx, cy, r as i64, r as i64))
}

/// Whether the `i32` circle equation of radius `r` around `(cx, cy)` can be
/// evaluated at `(x, y)`.
pub fn circle_decision_fits_check(cx: i32, cy: i32, r: i32, x: i32, y: i32) -> (b: bool)
    ensures
        b == circle_decision_fits(cx as int, cy as int, r as int, x as int, y as int),
{
    let dx = x as i64 - cx as i64;
    let dy = y as i64 - cy as i64;
    if !in_i32(dx) || !in_i32(dy) {
        return false;
    }
    let r = r as i64;
    proof {
        assert(0 <= dx * dx <= 0x4000_0000_0000_0000 && 0 <= dy * dy <= 0x4000_0000_0000_0000
            && 0 <= r * r <= 0x4000_0000_0000_0000) by (nonlinear_arith)
            requires
                -0x8000_0000 <= dx <= 0x7fff_ffff,
                -0x8000_0000 <= dy <= 0x7fff_ffff,
                -0x8000_0000 <= r <= 0x7fff_ffff,
        ;
    }
    let dx2 = dx * dx;
    let dy2 = dy * dy;
    let r2 = r * r;
    if !in_i32(dx2) || !in_i32(dy2) || !in_i32(r2) {
        return false;
    }
    let sum = dx2 + dy2;
    in_i32(sum) && in_i32(sum - r2)
}

/// Whether the midpoint ellipse walks accept radii `rx`, `ry` around
/// `(cx, cy)`.
pub fn ellipse_fits_check(cx: i32, cy: i32, rx: i32, ry: i32) -> (b: bool)
    ensures
        b == ellipse_fits(cx as int, cy as int, rx as int, ry as int),
{
    let r: i64 = if rx < 0 {
        -(rx as i64)
    } else {
        rx as i64
    };
    let s: i64 = if ry < 0 {
        -(ry as i64)
    } else {
        ry as i64
    };
    assert(r == abs(rx as int) && s == abs(ry as int));
    if r > 46340 || s > 46340 {
        return false;
    }
    proof {
        assert(0 <= r * r <= 46340 * 46340 && 0 <= s * s <= 46340 * 46340) by (nonlinear_arith)
            requires
                0 <= r <= 46340,
                0 <= s <= 46340,
        ;
        assert(0 <= (r * r) * s <= 46340 * 46340 * 46340 && 0 <= (s * s) * (r + 1) <= 46340
            * 46340 * 46341) by (nonlinear_arith)
            requires
                0 <= r <= 46340,
                0 <= s <= 46340,
                0 <= r * r <= 46340 * 46340,
                0 <= s * s <= 46340 * 46340,
        ;
    }
    let rr = r * r;
    let ss = s * s;
    assert(2 * rr * s == 2 * (rr * s) && 2 * ss * (r + 1) == 2 * (ss * (r + 1))) by (nonlinear_arith);
    2 * rr * s + 2 * rr <= 0x7fff_ffff && 2 * ss * (r + 1) + 2 * ss <= 0x7fff_ffff && box_in_i32(
        cx,
        cy,
        r,
        s,
    )
}

/// Whether the `i64` ellipse equation with radii `rx`, `ry` around
/// `(cx, cy)` can be evaluated at `(px, py)`.
pub fn ellipse_decision_fits_check(cx: i32, cy: i32, rx: i32, ry: i32, px: i32, py: i32) -> (b:
    bool)
    ensures
        b == ellipse_decision_fits(
            cx as int,
            cy as int,
            rx as int,
            ry as int,
            px as int,
            py as int,
        ),
{
    let dx = px as i64 - cx as i64;
    let dy = py as i64 - cy as i64;
    if !in_i32(dx) || !in_i32(dy) {
        return false;
    }
    let dx = dx as i128;
    let dy = dy as i128;
    let a = rx as i128;
    let b = ry as i128;
    let ghost k: int = 0x8000_0000;
    proof {
        lemma_mul_within(a as int, a as int, k, k);
        lemma_mul_within(b as int, b as int, k, k);
        lemma_mul_within(b * b, dx as int, k * k, k);
        lemma_mul_within(b * b * dx, dx as int, k * k * k, k);
        lemma_mul_within(a * a, dy as int, k * k, k);
        lemma_mul_within(a * a * dy, dy as int, k * k * k, k);
        lemma_mul_within(a * a, b as int, k * k, k);
        lemma_mul_within(a * a * b, b as int, k * k * k, k);
        assert(k * k == 0x4000_0000_0000_0000 && k * k * k == 0x2000_0000_0000_0000_0000_0000
            && k * k * k * k == 0x1000_0000_0000_0000_0000_0000_0000_0000) by (nonlinear_arith)
            requires
                k == 0x8000_0000,
        ;
    }
    let t1 = b * b * dx;
    let t2 = b * b * dx * dx;
    let t3 = a * a * dy;
    let t4 = a * a * dy * dy;
    let t5 = t2 + t4;
    let t6 = a * a * b;
    let t7 = a * a * b * b;
    let t8 = t5 - t7;
    in_i64(t1) && in_i64(t2) && in_i64(t3) && in_i64(t4) && in_i64(t5) && in_i64(t6) && in_i64(t7)
        && in_i64(t8)
}

/// Whether the wide ring arithmetic of a shrinking fill of radii `rx`, `ry`
/// around `(cx, cy)` stays in range.
fn wide_check(cx: i32, cy: i32, rx: i32, ry: i32) -> (b: bool)
    requires
        -0x10_0000 <= rx <= 0x10_0000,
        -0x10_0000 <= ry <= 0x10_0000,
    ensures
        b == roland_fill_fits(cx as int, cy as int, rx as int, ry as int),
{
    if rx < 1 || ry < 1 {
        return true;
    }
    let r = rx as i128;
    let s = ry as i128;
    proof {
        lemma_mul_within(r as int, r as int, 0x10_0000, 0x10_0000);
        lemma_mul_within(s as int, s as int, 0x10_0000, 0x10_0000);
        lemma_mul_within(r * r, s * s, 0x100_0000_0000, 0x100_0000_0000);
    }
    (r * r) * (s * s) <= 0x1_0000_0000_0000 && box_in_i32(cx, cy, rx as i64, ry as i64)
}

/// Whether the shrinking step-then-plot fill accepts radii `rx`, `ry`
/// around `(cx, cy)`.
pub fn roland_fill_fits_check(cx: i32, cy: i32, rx: i32, ry: i32) -> (b: bool)
    ensures
        b == roland_fill_fits(cx as int, cy as int, rx as int, ry as int),
{
    if rx < -0x10_0000 || rx > 0x10_0000 || ry < -0x10_0000 || ry > 0x10_0000 {
        return false;
    }
    wide_check(cx, cy, rx, ry)
}

/// Whether the own-fill ellipse, rings and middle row, accepts radii `rx`,
/// `ry` around `(cx, cy)`.
pub fn own_fill_fits_check(cx: i32, cy: i32, rx: i32, ry: i32) -> (b: bool)
    ensures
        b == own_fill_fits(cx as int, cy as int, rx as int, ry as int),
{
    if !roland_fill_fits_check(cx, cy, rx, ry) {
        return false;
    }
    let f = rx as i64 - (ry as i64 - 1);
    f < 0 || (in_i32(cx as i64 - f) && in_i32(cx as i64 + f))
}

/// Whether the shrinking bridged fill accepts radii `rx`, `ry` around
/// `(cx, cy)`.
pub fn virtual_fill_fits_check(cx: i32, cy: i32, rx: i32, ry: i32) -> (b: bool)
    ensures
        b == virtual_fill_fits(cx as int, cy as int, rx as int, ry as int),
{
    if rx < -0x10_0000 || rx > 0x10_0000 || ry < -0x10_0000 || ry > 0x10_0000 {
        return false;
    }
    if rx < 1 || ry < 1 {
        return true;
    }
    let r = rx as i128 + 1;
    let s = ry as i128 + 1;
    proof {
        let m: int = 0x10_0001;
        lemma_mul_within(r as int, r as int, m, m);
        lemma_mul_within(s as int, s as int, m, m);
        lemma_mul_within(r * r, s * s, m * m, m * m);
        lemma_mul_within(s * s, r as int, m * m, m);
        lemma_mul_within(r * r, s as int, m * m, m);
        assert(2 * (s * s) * r == 2 * ((s * s) * r) && 2 * (r * r) * s == 2 * ((r * r) * s))
            by (nonlinear_arith);
    }
    let oa = r * r;
    let ob = s * s;
    oa * ob <= 0x7fff_ffff && 2 * ob * r + 2 * oa * s + oa + ob <= 0x7fff_ffff && box_in_i32(
        cx,
        cy,
        rx as i64,
        ry as i64,
    )
}

/// Whether the midpoint line accepts the ends `(x0, y0)` and `(x1, y1)`.
pub fn line_fits_check(x0: i32, y0: i32, x1: i32, y1: i32) -> (b: bool)
    ensures
        b == line_fits(x0 as int, y0 as int, x1 as int, y1 as int),
{
    let dx = x1 as i64 - x0 as i64;
    let dy = y1 as i64 - y0 as i64;
    -0x1fff_ffff <= dx && dx <= 0x1fff_ffff && -0x1fff_ffff <= dy && dy <= 0x1fff_ffff
}

} // verus!

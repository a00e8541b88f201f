//! The midpoint ellipse walk that also tracks the decision values of the
//! ellipse one cell larger, and plots a bridge pixel wherever that outer
//! ellipse shows a gap between two rings.
//!
//! As in `ellipse_walk`, every decision value is kept multiplied by four.
use vstd::prelude::*;

use crate::algorithms::ellipse_walk::{
    f4_above, f4_east, f4_south, in_region1, lemma_decision_steps, lemma_region1_end_inv,
    lemma_region1_touches,
    lemma_region1_measure, lemma_region1_over, lemma_region1_start, lemma_region1_step,
    lemma_mirror4_all_index, lemma_region1_unfold, lemma_region2_step, mirror4_all, quadrant,
    region1, region1_end, region1_inv, region2,
    region1_measure, region1_next, region2_inv, region2_next, ring_present, wide_pairs,
};
use crate::algorithms::{fits_i32, lemma_contains_concat};

verus! {

/// Four times the outer region-1 decision value that the walk carries at
/// `(x, y)` for the outer ellipse `oa = (rx + 1)²`, `ob = (ry + 1)²`: the
/// outer midpoint value at `(x + 1, y + 1/2)`, plus `2 oa` for each of the
/// `s - y` diagonal steps taken from the top `y = s`.
pub open spec fn outer_east(oa: int, ob: int, s: int, x: int, y: int) -> int {
    f4_east(oa, ob, x, y + 1) + 8 * oa * (s - y)
}

/// The region-1 pixels of the walk from `(x, y)` on: each walk pixel, and
/// after it, on a diagonal step whose outer value is negative, the bridge
/// pixel `(x + 1, y)`.
pub open spec fn virtual_r1(a: int, b: int, oa: int, ob: int, s: int, x: int, y: int) -> Seq<
    (int, int),
>
    decreases region1_measure(a, b, x, y),
{
    if a < 0 || b <= 0 || !in_region1(a, b, x, y) {
        Seq::empty()
    } else {
        let n = region1_next(a, b, x, y);
        proof {
            lemma_region1_measure(a, b, x, y);
        }
        seq![(x, y)] + (if f4_east(a, b, x, y) >= 0 && outer_east(oa, ob, s, x, y) < 0 {
            seq![(x + 1, y)]
        } else {
            Seq::empty()
        }) + virtual_r1(a, b, oa, ob, s, n.0, n.1)
    }
}

/// The region-2 pixels of the walk from `(x, y)` on: each walk pixel, and
/// after it, on a diagonal step whose outer value is positive, the bridge
/// pixel `(x, y - 1)`.
pub open spec fn virtual_r2(a: int, b: int, oa: int, ob: int, x: int, y: int) -> Seq<(int, int)>
    decreases y + 1,
{
    if y < 0 {
        Seq::empty()
    } else {
        let n = region2_next(a, b, x, y);
        seq![(x, y)] + (if f4_south(a, b, x, y) <= 0 && f4_south(oa, ob, x, y) > 0 {
            seq![(x, y - 1)]
        } else {
            Seq::empty()
        }) + virtual_r2(a, b, oa, ob, n.0, n.1)
    }
}

/// The first-quadrant pixels of the bridged walk with radii `rx`, `ry`, in
/// plotting order.
pub open spec fn virtual_pixels(rx: int, ry: int) -> Seq<(int, int)> {
    let a = rx * rx;
    let b = ry * ry;
    let oa = (rx + 1) * (rx + 1);
    let ob = (ry + 1) * (ry + 1);
    let e = region1_end(a, b, 0, ry);
    virtual_r1(a, b, oa, ob, ry, 0, ry) + virtual_r2(a, b, oa, ob, e.0, e.1)
}

/// The pixels of the bridged ellipse with radii `rx`, `ry` around `(cx, cy)`.
pub open spec fn virtual_outline(cx: int, cy: int, rx: int, ry: int) -> Seq<(int, int)> {
    mirror4_all(cx, cy, virtual_pixels(rx, ry))
}

/// Every pixel of `q` lies in `[0, r] × [-1, s]`.
pub open spec fn in_virtual_box(q: Seq<(int, int)>, r: int, s: int) -> bool {
    forall|i: int| 0 <= i < q.len() ==> 0 <= (#[trigger] q[i]).0 <= r && -1 <= q[i].1 <= s
}

/// Radii for which the `i32` evaluation of both walks stays in range:
/// both at least 1, and with `R = rx + 1`, `S = ry + 1`: `R² S²` and
/// `2 S² R + 2 R² S + R² + S²` fit an `i32`.
pub open spec fn virtual_radii_fit(rx: int, ry: int) -> bool {
    let oa = (rx + 1) * (rx + 1);
    let ob = (ry + 1) * (ry + 1);
    &&& 1 <= rx
    &&& 1 <= ry
    &&& oa * ob <= i32::MAX
    &&& 2 * ob * (rx + 1) + 2 * oa * (ry + 1) + oa + ob <= i32::MAX
}

/// Fitting radii around a center whose pixels all have `i32` coordinates.
pub open spec fn virtual_ellipse_fits(cx: int, cy: int, rx: int, ry: int) -> bool {
    &&& virtual_radii_fit(rx, ry)
    &&& fits_i32(cx - rx)
    &&& fits_i32(cx + rx)
    &&& fits_i32(cy - ry)
    &&& fits_i32(cy + ry)
}

/// A product of two bounded non-negative factors is bounded by the product
/// of the bounds.
proof fn lemma_product_bound(p: int, q: int, pm: int, qm: int)
    requires
        0 <= p <= pm,
        0 <= q <= qm,
    ensures
        0 <= p * q <= pm * qm,
{
    assert(0 <= p * q <= pm * qm) by (nonlinear_arith)
        requires
            0 <= p <= pm,
            0 <= q <= qm,
    ;
}

/// Along the walk every value of both evaluations is far inside the `i64`
/// range: all of them are within `32 · 2^31`.
pub proof fn lemma_virtual_values_small(r: int, s: int, x: int, y: int)
    requires
        virtual_radii_fit(r, s),
        0 <= x <= r + 1,
        -1 <= y <= s,
    ensures
        r + 1 <= 0x8000_0000,
        s + 1 <= 0x8000_0000,
        1 <= r * r <= 0x8000_0000,
        1 <= s * s <= 0x8000_0000,
        4 <= (r + 1) * (r + 1) <= 0x8000_0000,
        4 <= (s + 1) * (s + 1) <= 0x8000_0000,
        0 <= 2 * (s * s) * x <= 0x2_0000_0000,
        -0x2_0000_0000 <= 2 * (r * r) * y <= 0x2_0000_0000,
        0 <= 2 * ((s + 1) * (s + 1)) * x <= 0x2_0000_0000,
        -0x2_0000_0000 <= 2 * ((r + 1) * (r + 1)) * y <= 0x2_0000_0000,
        0 <= 4 * (r * r) * s <= 0x2_0000_0000,
        0 <= 4 * ((r + 1) * (r + 1)) * (s + 1) <= 0x2_0000_0000,
        -0x10_0000_0000 <= f4_east(r * r, s * s, x, y) <= 0x10_0000_0000,
        -0x10_0000_0000 <= outer_east((r + 1) * (r + 1), (s + 1) * (s + 1), s, x, y)
            <= 0x10_0000_0000,
        -0x10_0000_0000 <= f4_south(r * r, s * s, x, y) <= 0x10_0000_0000,
        -0x10_0000_0000 <= f4_south((r + 1) * (r + 1), (s + 1) * (s + 1), x, y)
            <= 0x10_0000_0000,
        0 <= (2 * x + 1) * (2 * x + 1) <= 0x2_0000_0000,
        0 <= (y - 1) * (y - 1) <= 0x8000_0000,
        0 <= (s * s) * ((2 * x + 1) * (2 * x + 1)) <= 0x10_0000_0000,
        0 <= 4 * (r * r) * ((y - 1) * (y - 1)) <= 0x10_0000_0000,
        0 <= 4 * (r * r) * (s * s) <= 0x2_0000_0000,
        0 <= ((s + 1) * (s + 1)) * ((2 * x + 1) * (2 * x + 1)) <= 0x10_0000_0000,
        0 <= 4 * ((r + 1) * (r + 1)) * ((y - 1) * (y - 1)) <= 0x10_0000_0000,
        0 <= 4 * ((r + 1) * (r + 1)) * ((s + 1) * (s + 1)) <= 0x2_0000_0000,
{
    let rr = r + 1;
    let ss = s + 1;
    let a = r * r;
    let b = s * s;
    let oa = rr * rr;
    let ob = ss * ss;
    let m = oa * ob;
    assert(m <= 0x8000_0000);
    // the squares
    lemma_product_bound(r, r, rr, rr);
    lemma_product_bound(s, s, ss, ss);
    assert(1 <= a && 1 <= b && 4 <= oa && 4 <= ob) by (nonlinear_arith)
        requires
            a == r * r,
            b == s * s,
            oa == rr * rr,
            ob == ss * ss,
            r >= 1,
            s >= 1,
            rr == r + 1,
            ss == s + 1,
    ;
    assert(oa <= m && ob <= m) by (nonlinear_arith)
        requires
            m == oa * ob,
            oa >= 4,
            ob >= 4,
    ;
    assert(rr <= oa && ss <= ob) by (nonlinear_arith)
        requires
            oa == rr * rr,
            ob == ss * ss,
            rr >= 2,
            ss >= 2,
    ;
    // the slopes
    lemma_product_bound(b, x, ob, oa);
    lemma_product_bound(ob, x, ob, oa);
    lemma_product_bound(a, y + 1, oa, ob);
    lemma_product_bound(oa, y + 1, oa, ob);
    assert(a * (y + 1) == a * y + a && oa * (y + 1) == oa * y + oa) by (nonlinear_arith);
    assert(2 * a * y == 2 * (a * y) && 2 * oa * y == 2 * (oa * y)) by (nonlinear_arith);
    assert(4 * oa <= m && 4 * ob <= m) by (nonlinear_arith)
        requires
            m == oa * ob,
            oa >= 4,
            ob >= 4,
    ;
    lemma_product_bound(a, s, oa, ob);
    lemma_product_bound(oa, ss, oa, ob);
    // the region-1 terms
    let p1 = (x + 1) * (x + 1);
    let p2 = (2 * y - 1) * (2 * y - 1);
    let p3 = (2 * y + 1) * (2 * y + 1);
    assert(0 <= p1 <= 4 * oa) by (nonlinear_arith)
        requires
            p1 == (x + 1) * (x + 1),
            oa == rr * rr,
            0 <= x <= rr,
            rr >= 1,
    ;
    assert(0 <= p2 <= 4 * ob && 0 <= p3 <= 4 * ob) by (nonlinear_arith)
        requires
            p2 == (2 * y - 1) * (2 * y - 1),
            p3 == (2 * y + 1) * (2 * y + 1),
            ob == ss * ss,
            -1 <= y <= s,
            ss == s + 1,
            s >= 1,
    ;
    lemma_product_bound(b, p1, ob, 4 * oa);
    lemma_product_bound(ob, p1, ob, 4 * oa);
    lemma_product_bound(a, p2, oa, 4 * ob);
    lemma_product_bound(oa, p3, oa, 4 * ob);
    lemma_product_bound(a, b, oa, ob);
    lemma_product_bound(oa, s - y, oa, ob);
    assert(ob * (4 * oa) == 4 * m && oa * (4 * ob) == 4 * m) by (nonlinear_arith)
        requires
            m == oa * ob,
    ;
    assert(4 * b * p1 == 4 * (b * p1) && 4 * ob * p1 == 4 * (ob * p1) && 8 * oa * (s - y) == 8 * (
    oa * (s - y))) by (nonlinear_arith);
    // the region-2 terms
    let p4 = (2 * x + 1) * (2 * x + 1);
    let p5 = (y - 1) * (y - 1);
    assert(0 <= p4 <= 9 * oa) by (nonlinear_arith)
        requires
            p4 == (2 * x + 1) * (2 * x + 1),
            oa == rr * rr,
            0 <= x <= rr,
            rr >= 1,
    ;
    assert(0 <= p5 <= ob) by (nonlinear_arith)
        requires
            p5 == (y - 1) * (y - 1),
            ob == ss * ss,
            -1 <= y <= s,
            ss == s + 1,
            s >= 1,
    ;
    lemma_product_bound(b, p4, ob, 9 * oa);
    lemma_product_bound(ob, p4, ob, 9 * oa);
    lemma_product_bound(a, p5, oa, ob);
    lemma_product_bound(oa, p5, oa, ob);
    assert(ob * (9 * oa) == 9 * m) by (nonlinear_arith)
        requires
            m == oa * ob,
    ;
    assert(4 * a * p5 == 4 * (a * p5) && 4 * oa * p5 == 4 * (oa * p5) && 4 * a * b == 4 * (a * b)
        && 4 * oa * ob == 4 * m && 4 * a * s == 4 * (a * s) && 4 * oa * ss == 4 * (oa * ss) && 2
        * b * x == 2 * (b * x) && 2 * ob * x == 2 * (ob * x)) by (nonlinear_arith)
        requires
            m == oa * ob,
    ;
}

} // verus!

verus! {

/// Walk the first quadrant of the midpoint ellipse with radii `rx`, `ry`,
/// plotting a bridge pixel wherever the ellipse with radii `rx + 1`,
/// `ry + 1` passes between two consecutive walk pixels.
pub fn virtual_quadrant(rx: i32, ry: i32) -> (q: Vec<(i64, i64)>)
    requires
        virtual_radii_fit(rx as int, ry as int),
    ensures
        wide_pairs(q@) == virtual_pixels(rx as int, ry as int),
        in_virtual_box(wide_pairs(q@), rx as int, ry as int),
{
    let ghost r = rx as int;
    let ghost s = ry as int;
    let ghost total = virtual_pixels(r, s);
    let rx = rx as i64;
    let ry = ry as i64;
    proof {
        lemma_virtual_values_small(r, s, 0, s);
    }
    let a: i64 = rx * rx;
    let b: i64 = ry * ry;
    let orx: i64 = rx + 1;
    let ory: i64 = ry + 1;
    let oa: i64 = orx * orx;
    let ob: i64 = ory * ory;
    let ghost e = region1_end(a as int, b as int, 0, s);
    let mut q: Vec<(i64, i64)> = Vec::new();
    let mut x: i64 = 0;
    let mut y: i64 = ry;
    proof {
        lemma_decision_steps(a as int, b as int, 0, s);
        lemma_decision_steps(oa as int, ob as int, 0, s + 1);
        lemma_region1_start(r, s);
        assert(2 * b * 0 == 0 && 2 * ob * 0 == 0) by (nonlinear_arith);
        assert(4 * a * (s * s) == 4 * (a * b)) by (nonlinear_arith)
            requires
                b == s * s,
        ;
        assert(4 * oa * ((s + 1) * (s + 1)) == 4 * (oa * ob)) by (nonlinear_arith)
            requires
                ob == (s + 1) * (s + 1),
        ;
        assert(8 * oa * (s - s) == 0) by (nonlinear_arith);
    }
    let mut d1: i64 = 4 * b - 4 * a * ry + a;
    let mut dx: i64 = 0;
    let mut dy: i64 = 2 * a * y;
    let mut od1: i64 = 4 * ob - 4 * oa * ory + oa;
    let mut odx: i64 = 0;
    let mut ody: i64 = 2 * oa * y;
    proof {
        assert(wide_pairs(q@) + virtual_r1(a as int, b as int, oa as int, ob as int, s, 0, s)
            + virtual_r2(a as int, b as int, oa as int, ob as int, e.0, e.1) =~= total);
    }
    // Region 1
    while dx < dy
        invariant
            r == rx,
            s == ry,
            a == r * r,
            b == s * s,
            oa == (r + 1) * (r + 1),
            ob == (s + 1) * (s + 1),
            virtual_radii_fit(r, s),
            region1_inv(r, s, x as int, y as int),
            0 <= y,
            dx == 2 * b * x,
            dy == 2 * a * y,
            odx == 2 * ob * x,
            ody == 2 * oa * y,
            d1 == f4_east(a as int, b as int, x as int, y as int),
            od1 == outer_east(oa as int, ob as int, s, x as int, y as int),
            e == region1_end(a as int, b as int, x as int, y as int),
            wide_pairs(q@) + virtual_r1(a as int, b as int, oa as int, ob as int, s, x as int, y as int)
                + virtual_r2(a as int, b as int, oa as int, ob as int, e.0, e.1) == total,
            in_virtual_box(wide_pairs(q@), r, s),
        decreases if dx < dy {
            dy - dx
        } else {
            0
        },
    {
        assert(in_region1(a as int, b as int, x as int, y as int)) by (nonlinear_arith)
            requires
                dx == 2 * b * x,
                dy == 2 * a * y,
                dx < dy,
        ;
        proof {
            lemma_region1_step(r, s, x as int, y as int);
            lemma_region1_unfold(a as int, b as int, x as int, y as int);
            lemma_decision_steps(a as int, b as int, x as int, y as int);
            lemma_decision_steps(oa as int, ob as int, x as int, y + 1);
            lemma_decision_steps(oa as int, ob as int, x as int, y as int);
            lemma_virtual_values_small(r, s, x as int, y as int);
            lemma_virtual_values_small(r, s, x + 1, y as int);
            lemma_virtual_values_small(r, s, x + 1, y - 1);
            assert(8 * oa * (s - (y - 1)) == 8 * oa * (s - y) + 8 * oa) by (nonlinear_arith);
        }
        let ghost before = wide_pairs(q@);
        q.push((x, y));
        proof {
            assert(wide_pairs(q@) =~= before.push((x as int, y as int)));
        }
        if d1 < 0 {
            x += 1;
            dx += 2 * b;
            d1 += 4 * (dx + b);
            odx += 2 * ob;
            od1 += 4 * (odx + ob);
        } else {
            if od1 < 0 {
                let ghost mid = wide_pairs(q@);
                q.push((x + 1, y));
                proof {
                    assert(wide_pairs(q@) =~= mid.push((x + 1, y as int)));
                }
            }
            x += 1;
            y -= 1;
            dx += 2 * b;
            dy -= 2 * a;
            d1 += 4 * (dx - dy + b);
            odx += 2 * ob;
            ody -= 2 * oa;
            od1 += 4 * (odx - ody + ob);
        }
        proof {
            assert(wide_pairs(q@) + virtual_r1(
                a as int,
                b as int,
                oa as int,
                ob as int,
                s,
                x as int,
                y as int,
            ) + virtual_r2(a as int, b as int, oa as int, ob as int, e.0, e.1) =~= total);
        }
    }
    proof {
        assert(!in_region1(a as int, b as int, x as int, y as int)) by (nonlinear_arith)
            requires
                dx == 2 * b * x,
                dy == 2 * a * y,
                dx >= dy,
        ;
        lemma_region1_over(a as int, b as int, x as int, y as int);
        assert(virtual_r1(a as int, b as int, oa as int, ob as int, s, x as int, y as int)
            =~= Seq::<(int, int)>::empty());
        assert(wide_pairs(q@) + virtual_r2(a as int, b as int, oa as int, ob as int, x as int, y as int)
            =~= total);
        lemma_region1_end_inv(r, s, x as int, y as int);
        lemma_virtual_values_small(r, s, x as int, y as int);
    }
    let mut d2: i64 = b * ((2 * x + 1) * (2 * x + 1)) + 4 * a * ((y - 1) * (y - 1)) - 4 * a * b;
    let mut od2: i64 = ob * ((2 * x + 1) * (2 * x + 1)) + 4 * oa * ((y - 1) * (y - 1)) - 4 * oa
        * ob;
    // Region 2
    while y >= 0
        invariant
            r == rx,
            s == ry,
            a == r * r,
            b == s * s,
            oa == (r + 1) * (r + 1),
            ob == (s + 1) * (s + 1),
            virtual_radii_fit(r, s),
            region2_inv(r, s, x as int, y as int),
            dx == 2 * b * x,
            dy == 2 * a * y,
            odx == 2 * ob * x,
            ody == 2 * oa * y,
            d2 == f4_south(a as int, b as int, x as int, y as int),
            od2 == f4_south(oa as int, ob as int, x as int, y as int),
            wide_pairs(q@) + virtual_r2(a as int, b as int, oa as int, ob as int, x as int, y as int)
                == total,
            in_virtual_box(wide_pairs(q@), r, s),
        decreases y + 1,
    {
        proof {
            lemma_region2_step(r, s, x as int, y as int);
            lemma_decision_steps(a as int, b as int, x as int, y as int);
            lemma_decision_steps(oa as int, ob as int, x as int, y as int);
            lemma_virtual_values_small(r, s, x as int, y as int);
            lemma_virtual_values_small(r, s, x as int, y - 1);
            lemma_virtual_values_small(r, s, x + 1, y - 1);
        }
        let ghost before = wide_pairs(q@);
        q.push((x, y));
        proof {
            assert(wide_pairs(q@) =~= before.push((x as int, y as int)));
        }
        if d2 > 0 {
            y -= 1;
            dy -= 2 * a;
            d2 += 4 * (a - dy);
            ody -= 2 * oa;
            od2 += 4 * (oa - ody);
        } else {
            if od2 > 0 {
                let ghost mid = wide_pairs(q@);
                q.push((x, y - 1));
                proof {
                    assert(wide_pairs(q@) =~= mid.push((x as int, y - 1)));
                }
            }
            y -= 1;
            x += 1;
            dx += 2 * b;
            dy -= 2 * a;
            d2 += 4 * (dx - dy + a);
            odx += 2 * ob;
            ody -= 2 * oa;
            od2 += 4 * (odx - ody + oa);
        }
        proof {
            assert(wide_pairs(q@) + virtual_r2(
                a as int,
                b as int,
                oa as int,
                ob as int,
                x as int,
                y as int,
            ) =~= total);
        }
    }
    proof {
        assert(wide_pairs(q@) =~= total);
    }
    q
}

} // verus!

verus! {

/// The bridged outlines of the rings `i = 0 .. k` of a shrinking fill, ring
/// `i` having radii `rx - i` and `ry - i`; absent rings contribute nothing.
pub open spec fn virtual_rings(cx: int, cy: int, rx: int, ry: int, k: int) -> Seq<(int, int)>
    decreases k,
{
    if k <= 0 {
        Seq::empty()
    } else {
        virtual_rings(cx, cy, rx, ry, k - 1) + (if ring_present(rx, ry, k - 1) {
            virtual_outline(cx, cy, rx - (k - 1), ry - (k - 1))
        } else {
            Seq::empty()
        })
    }
}

/// The ring label (`i + 1`) of every pixel of `virtual_rings(.., k)`.
pub open spec fn virtual_ring_labels(rx: int, ry: int, k: int) -> Seq<i32>
    decreases k,
{
    if k <= 0 {
        Seq::empty()
    } else {
        virtual_ring_labels(rx, ry, k - 1) + (if ring_present(rx, ry, k - 1) {
            Seq::new(4 * virtual_pixels(rx - (k - 1), ry - (k - 1)).len(), |i: int| k as i32)
        } else {
            Seq::empty()
        })
    }
}

/// A shrinking bridged fill whose ring arithmetic stays in range: both
/// radii within `2^20` in size, and fitting radii whose pixels have `i32`
/// coordinates whenever there is a ring at all.
pub open spec fn virtual_fill_fits(cx: int, cy: int, rx: int, ry: int) -> bool {
    &&& -0x10_0000 <= rx <= 0x10_0000
    &&& -0x10_0000 <= ry <= 0x10_0000
    &&& rx >= 1 && ry >= 1 ==> virtual_ellipse_fits(cx, cy, rx, ry)
}

/// Smaller positive radii fit whenever the larger ones do.
pub proof fn lemma_virtual_fits_shrink(cx: int, cy: int, rx: int, ry: int, rx2: int, ry2: int)
    requires
        virtual_ellipse_fits(cx, cy, rx, ry),
        1 <= rx2 <= rx,
        1 <= ry2 <= ry,
    ensures
        virtual_ellipse_fits(cx, cy, rx2, ry2),
{
    let oa = (rx + 1) * (rx + 1);
    let ob = (ry + 1) * (ry + 1);
    let oa2 = (rx2 + 1) * (rx2 + 1);
    let ob2 = (ry2 + 1) * (ry2 + 1);
    assert(0 <= oa2 <= oa && 0 <= ob2 <= ob) by (nonlinear_arith)
        requires
            oa == (rx + 1) * (rx + 1),
            ob == (ry + 1) * (ry + 1),
            oa2 == (rx2 + 1) * (rx2 + 1),
            ob2 == (ry2 + 1) * (ry2 + 1),
            1 <= rx2 <= rx,
            1 <= ry2 <= ry,
    ;
    assert(oa2 * ob2 <= oa * ob) by (nonlinear_arith)
        requires
            0 <= oa2 <= oa,
            0 <= ob2 <= ob,
    ;
    assert(2 * ob2 * (rx2 + 1) + 2 * oa2 * (ry2 + 1) <= 2 * ob * (rx + 1) + 2 * oa * (ry + 1))
        by (nonlinear_arith)
        requires
            0 <= oa2 <= oa,
            0 <= ob2 <= ob,
            1 <= rx2 <= rx,
            1 <= ry2 <= ry,
    ;
}

} // verus!

verus! {

/// Law: in the shrinking bridged fill there is one ring label per point,
/// and each label names a ring that exists: it lies in
/// `1 ..= min(rx, ry)` (and within the `k` rings counted).
pub proof fn lemma_virtual_ring_labels(cx: int, cy: int, rx: int, ry: int, k: int)
    requires
        k <= i32::MAX,
    ensures
        virtual_ring_labels(rx, ry, k).len() == virtual_rings(cx, cy, rx, ry, k).len(),
        forall|i: int|
            0 <= i < virtual_ring_labels(rx, ry, k).len() ==> {
                let l = #[trigger] virtual_ring_labels(rx, ry, k)[i];
                &&& 1 <= l <= k
                &&& l <= rx
                &&& l <= ry
            },
    decreases k,
{
    if k > 0 {
        lemma_virtual_ring_labels(cx, cy, rx, ry, k - 1);
        let before = virtual_ring_labels(rx, ry, k - 1);
        let labels = virtual_ring_labels(rx, ry, k);
        if ring_present(rx, ry, k - 1) {
            lemma_mirror4_all_index(cx, cy, virtual_pixels(rx - (k - 1), ry - (k - 1)));
        }
        assert forall|i: int| 0 <= i < labels.len() implies {
            let l = #[trigger] labels[i];
            &&& 1 <= l <= k
            &&& l <= rx
            &&& l <= ry
        } by {
            if i < before.len() {
                assert(labels[i] == before[i]);
            } else {
                assert(labels[i] == k as i32);
            }
        }
    }
}

} // verus!

verus! {

/// Region 1 of the bridged walk holds every pixel of the plain region 1.
proof fn lemma_virtual_r1_covers(a: int, b: int, oa: int, ob: int, s: int, x: int, y: int)
    ensures
        forall|i: int|
            0 <= i < region1(a, b, x, y).len() ==> virtual_r1(a, b, oa, ob, s, x, y).contains(
                #[trigger] region1(a, b, x, y)[i],
            ),
    decreases region1_measure(a, b, x, y),
{
    if a >= 0 && b > 0 && in_region1(a, b, x, y) {
        let n = region1_next(a, b, x, y);
        lemma_region1_measure(a, b, x, y);
        lemma_virtual_r1_covers(a, b, oa, ob, s, n.0, n.1);
        let p = region1(a, b, x, y);
        let t = region1(a, b, n.0, n.1);
        let bridge = if f4_east(a, b, x, y) >= 0 && outer_east(oa, ob, s, x, y) < 0 {
            seq![(x + 1, y)]
        } else {
            Seq::<(int, int)>::empty()
        };
        let v = virtual_r1(a, b, oa, ob, s, x, y);
        let w = virtual_r1(a, b, oa, ob, s, n.0, n.1);
        assert(v == seq![(x, y)] + bridge + w);
        assert forall|i: int| 0 <= i < p.len() implies v.contains(#[trigger] p[i]) by {
            if i == 0 {
                assert(v[0] == (x, y));
            } else {
                assert(p[i] == t[i - 1]);
                lemma_contains_concat(seq![(x, y)] + bridge, w, p[i]);
            }
        }
    }
}

/// Region 2 of the bridged walk holds every pixel of the plain region 2.
proof fn lemma_virtual_r2_covers(a: int, b: int, oa: int, ob: int, x: int, y: int)
    ensures
        forall|i: int|
            0 <= i < region2(a, b, x, y).len() ==> virtual_r2(a, b, oa, ob, x, y).contains(
                #[trigger] region2(a, b, x, y)[i],
            ),
    decreases y + 1,
{
    if y >= 0 {
        let n = region2_next(a, b, x, y);
        lemma_virtual_r2_covers(a, b, oa, ob, n.0, n.1);
        let p = region2(a, b, x, y);
        let t = region2(a, b, n.0, n.1);
        let bridge = if f4_south(a, b, x, y) <= 0 && f4_south(oa, ob, x, y) > 0 {
            seq![(x, y - 1)]
        } else {
            Seq::<(int, int)>::empty()
        };
        let v = virtual_r2(a, b, oa, ob, x, y);
        let w = virtual_r2(a, b, oa, ob, n.0, n.1);
        assert(v == seq![(x, y)] + bridge + w);
        assert forall|i: int| 0 <= i < p.len() implies v.contains(#[trigger] p[i]) by {
            if i == 0 {
                assert(v[0] == (x, y));
            } else {
                assert(p[i] == t[i - 1]);
                lemma_contains_concat(seq![(x, y)] + bridge, w, p[i]);
            }
        }
    }
}

/// Law: the bridged walk plots every pixel of the plain midpoint walk with
/// the same radii; the bridges only add pixels.
pub proof fn lemma_virtual_covers_quadrant(rx: int, ry: int)
    ensures
        forall|i: int|
            0 <= i < quadrant(rx, ry).len() ==> virtual_pixels(rx, ry).contains(
                #[trigger] quadrant(rx, ry)[i],
            ),
{
    let a = rx * rx;
    let b = ry * ry;
    let oa = (rx + 1) * (rx + 1);
    let ob = (ry + 1) * (ry + 1);
    let e = region1_end(a, b, 0, ry);
    let p1 = region1(a, b, 0, ry);
    let p2 = region2(a, b, e.0, e.1);
    let v1 = virtual_r1(a, b, oa, ob, ry, 0, ry);
    let v2 = virtual_r2(a, b, oa, ob, e.0, e.1);
    lemma_virtual_r1_covers(a, b, oa, ob, ry, 0, ry);
    lemma_virtual_r2_covers(a, b, oa, ob, e.0, e.1);
    assert forall|i: int| 0 <= i < quadrant(rx, ry).len() implies virtual_pixels(rx, ry).contains(
        #[trigger] quadrant(rx, ry)[i],
    ) by {
        let q = quadrant(rx, ry);
        if i < p1.len() {
            assert(q[i] == p1[i]);
            lemma_contains_concat(v1, v2, q[i]);
        } else {
            assert(q[i] == p2[i - p1.len()]);
            lemma_contains_concat(v1, v2, q[i]);
        }
    }
}

} // verus!

verus! {

/// The bridged rings up to `i` are a prefix of those up to `k >= i`, with
/// their labels.
proof fn lemma_virtual_rings_prefix(cx: int, cy: int, rx: int, ry: int, i: int, k: int)
    requires
        0 <= i <= k,
        k <= i32::MAX,
    ensures
        virtual_rings(cx, cy, rx, ry, i).len() <= virtual_rings(cx, cy, rx, ry, k).len(),
        virtual_rings(cx, cy, rx, ry, k).subrange(0, virtual_rings(cx, cy, rx, ry, i).len() as int)
            == virtual_rings(cx, cy, rx, ry, i),
        virtual_ring_labels(rx, ry, k).subrange(0, virtual_rings(cx, cy, rx, ry, i).len() as int)
            == virtual_ring_labels(rx, ry, i),
    decreases k - i,
{
    lemma_virtual_ring_labels(cx, cy, rx, ry, k);
    lemma_virtual_ring_labels(cx, cy, rx, ry, i);
    let m = virtual_rings(cx, cy, rx, ry, i).len() as int;
    if i < k {
        lemma_virtual_rings_prefix(cx, cy, rx, ry, i, k - 1);
        lemma_virtual_ring_labels(cx, cy, rx, ry, k - 1);
        assert(virtual_rings(cx, cy, rx, ry, k).subrange(0, m) =~= virtual_rings(
            cx,
            cy,
            rx,
            ry,
            k - 1,
        ).subrange(0, m));
        assert(virtual_ring_labels(rx, ry, k).subrange(0, m) =~= virtual_ring_labels(
            rx,
            ry,
            k - 1,
        ).subrange(0, m));
    } else {
        assert(virtual_rings(cx, cy, rx, ry, k).subrange(0, m) =~= virtual_rings(
            cx,
            cy,
            rx,
            ry,
            k,
        ));
        assert(virtual_ring_labels(rx, ry, k).subrange(0, m) =~= virtual_ring_labels(rx, ry, k));
    }
}

/// Law: in the shrinking bridged fill, ring `i` is drawn whenever both
/// reduced radii `rx - i` and `ry - i` are at least 1: it occupies the
/// pixels after the rings before it, and they are exactly the bridged
/// outline with those radii around the same center, all labelled `i + 1`.
pub proof fn lemma_virtual_fill_ring(cx: int, cy: int, rx: int, ry: int, k: int, i: int)
    requires
        0 <= i < k <= i32::MAX,
        rx - i >= 1,
        ry - i >= 1,
    ensures
        ({
            let start = virtual_rings(cx, cy, rx, ry, i).len() as int;
            let end = start + virtual_outline(cx, cy, rx - i, ry - i).len();
            &&& end <= virtual_rings(cx, cy, rx, ry, k).len()
            &&& virtual_rings(cx, cy, rx, ry, k).subrange(start, end) == virtual_outline(
                cx,
                cy,
                rx - i,
                ry - i,
            )
            &&& virtual_ring_labels(rx, ry, k).subrange(start, end) == Seq::new(
                virtual_outline(cx, cy, rx - i, ry - i).len(),
                |j: int| (i + 1) as i32,
            )
        }),
{
    lemma_virtual_rings_prefix(cx, cy, rx, ry, i + 1, k);
    lemma_virtual_ring_labels(cx, cy, rx, ry, i + 1);
    lemma_virtual_ring_labels(cx, cy, rx, ry, i);
    lemma_mirror4_all_index(cx, cy, virtual_pixels(rx - i, ry - i));
    let before = virtual_rings(cx, cy, rx, ry, i);
    let upto = virtual_rings(cx, cy, rx, ry, i + 1);
    let o = virtual_outline(cx, cy, rx - i, ry - i);
    let start = before.len() as int;
    let end = start + o.len();
    assert(upto == before + o);
    assert(virtual_rings(cx, cy, rx, ry, k).subrange(start, end) =~= upto.subrange(start, end));
    assert(upto.subrange(start, end) =~= o);
    lemma_virtual_ring_labels(cx, cy, rx, ry, k);
    let lk = virtual_ring_labels(rx, ry, k);
    let lu = virtual_ring_labels(rx, ry, i + 1);
    assert forall|j: int| start <= j < end implies lk[j] == lu[j] by {
        assert(lk.subrange(0, upto.len() as int)[j] == lk[j]);
    }
    assert(lk.subrange(start, end) =~= lu.subrange(start, end));
    assert(lu.subrange(start, end) =~= Seq::new(o.len(), |j: int| (i + 1) as i32));
}

} // verus!

verus! {

/// Every pixel of region 1 lies in region 1, and beside each diagonal step
/// from such a pixel `(x, y)` whose tracked outer value
/// `f4_east(oa, ob, x, y + 1) + 8 oa (s - y)` is negative, the bridged
/// region 1 holds the bridge pixel `(x + 1, y)`.
proof fn lemma_virtual_r1_bridges(a: int, b: int, oa: int, ob: int, s: int, x: int, y: int)
    ensures
        forall|i: int|
            0 <= i < region1(a, b, x, y).len() ==> {
                let p = #[trigger] region1(a, b, x, y)[i];
                &&& in_region1(a, b, p.0, p.1)
                &&& (f4_east(a, b, p.0, p.1) >= 0 && f4_east(oa, ob, p.0, p.1 + 1) + 8 * oa * (s
                    - p.1) < 0 ==> virtual_r1(a, b, oa, ob, s, x, y).contains((p.0 + 1, p.1)))
            },
    decreases region1_measure(a, b, x, y),
{
    if a >= 0 && b > 0 && in_region1(a, b, x, y) {
        let n = region1_next(a, b, x, y);
        lemma_region1_measure(a, b, x, y);
        lemma_virtual_r1_bridges(a, b, oa, ob, s, n.0, n.1);
        let p = region1(a, b, x, y);
        let t = region1(a, b, n.0, n.1);
        let bridge = if f4_east(a, b, x, y) >= 0 && outer_east(oa, ob, s, x, y) < 0 {
            seq![(x + 1, y)]
        } else {
            Seq::<(int, int)>::empty()
        };
        let v = virtual_r1(a, b, oa, ob, s, x, y);
        let w = virtual_r1(a, b, oa, ob, s, n.0, n.1);
        assert(v == seq![(x, y)] + bridge + w);
        assert forall|i: int| 0 <= i < p.len() implies {
            let q = #[trigger] p[i];
            &&& in_region1(a, b, q.0, q.1)
            &&& (f4_east(a, b, q.0, q.1) >= 0 && f4_east(oa, ob, q.0, q.1 + 1) + 8 * oa * (s
                - q.1) < 0 ==> v.contains((q.0 + 1, q.1)))
        } by {
            let q = p[i];
            if i == 0 {
                assert(q == (x, y));
                if f4_east(a, b, q.0, q.1) >= 0 && f4_east(oa, ob, q.0, q.1 + 1) + 8 * oa * (s
                    - q.1) < 0 {
                    assert(v[1] == (x + 1, y));
                }
            } else {
                assert(p[i] == t[i - 1]);
                lemma_contains_concat(seq![(x, y)] + bridge, w, (q.0 + 1, q.1));
            }
        }
    }
}

/// From a pixel past the slope -1 (`a y <= b x`), every pixel of region 2
/// stays past it, and beside each diagonal step from such a pixel `(x, y)`
/// whose outer midpoint `(x + 1/2, y - 1)` lies outside the ellipse one
/// cell larger, the bridged region 2 holds the bridge pixel `(x, y - 1)`.
proof fn lemma_virtual_r2_bridges(a: int, b: int, oa: int, ob: int, x: int, y: int)
    requires
        a >= 0,
        b >= 0,
        a * y <= b * x,
    ensures
        forall|i: int|
            0 <= i < region2(a, b, x, y).len() ==> {
                let p = #[trigger] region2(a, b, x, y)[i];
                &&& !in_region1(a, b, p.0, p.1)
                &&& (f4_south(a, b, p.0, p.1) <= 0 && f4_south(oa, ob, p.0, p.1) > 0
                    ==> virtual_r2(a, b, oa, ob, x, y).contains((p.0, p.1 - 1)))
            },
    decreases y + 1,
{
    if y >= 0 {
        let n = region2_next(a, b, x, y);
        assert(a * n.1 <= b * n.0) by (nonlinear_arith)
            requires
                a >= 0,
                b >= 0,
                a * y <= b * x,
                n.1 == y - 1,
                n.0 == x || n.0 == x + 1,
        ;
        lemma_virtual_r2_bridges(a, b, oa, ob, n.0, n.1);
        let p = region2(a, b, x, y);
        let t = region2(a, b, n.0, n.1);
        let bridge = if f4_south(a, b, x, y) <= 0 && f4_south(oa, ob, x, y) > 0 {
            seq![(x, y - 1)]
        } else {
            Seq::<(int, int)>::empty()
        };
        let v = virtual_r2(a, b, oa, ob, x, y);
        let w = virtual_r2(a, b, oa, ob, n.0, n.1);
        assert(p == seq![(x, y)] + t);
        assert(v == seq![(x, y)] + bridge + w);
        assert forall|i: int| 0 <= i < p.len() implies {
            let q = #[trigger] p[i];
            &&& !in_region1(a, b, q.0, q.1)
            &&& (f4_south(a, b, q.0, q.1) <= 0 && f4_south(oa, ob, q.0, q.1) > 0 ==> v.contains(
                (q.0, q.1 - 1),
            ))
        } by {
            let q = p[i];
            if i == 0 {
                assert(q == (x, y));
                if f4_south(a, b, q.0, q.1) <= 0 && f4_south(oa, ob, q.0, q.1) > 0 {
                    assert(v[1] == (x, y - 1));
                }
            } else {
                assert(p[i] == t[i - 1]);
                lemma_contains_concat(seq![(x, y)] + bridge, w, (q.0, q.1 - 1));
            }
        }
    }
}

/// Law: the bridged walk plots its bridges. With `a = rx²`, `b = ry²` and
/// the ellipse one cell larger, `oa = (rx + 1)²`, `ob = (ry + 1)²`: beside
/// each diagonal step of the plain midpoint walk from a quadrant pixel
/// `(x, y)` in region 1 whose tracked outer value
/// `f4_east(oa, ob, x, y + 1) + 8 oa (ry - y)` is negative, it plots
/// `(x + 1, y)`; and beside each diagonal step from a pixel in region 2
/// whose midpoint `(x + 1/2, y - 1)` lies outside the larger ellipse, it
/// plots `(x, y - 1)`.
pub proof fn lemma_virtual_bridges(rx: int, ry: int)
    ensures
        forall|i: int|
            0 <= i < quadrant(rx, ry).len() ==> {
                let p = #[trigger] quadrant(rx, ry)[i];
                let a = rx * rx;
                let b = ry * ry;
                let oa = (rx + 1) * (rx + 1);
                let ob = (ry + 1) * (ry + 1);
                &&& (in_region1(a, b, p.0, p.1) && f4_east(a, b, p.0, p.1) >= 0 && f4_east(
                    oa,
                    ob,
                    p.0,
                    p.1 + 1,
                ) + 8 * oa * (ry - p.1) < 0 ==> virtual_pixels(rx, ry).contains((p.0 + 1, p.1)))
                &&& (!in_region1(a, b, p.0, p.1) && f4_south(a, b, p.0, p.1) <= 0 && f4_south(
                    oa,
                    ob,
                    p.0,
                    p.1,
                ) > 0 ==> virtual_pixels(rx, ry).contains((p.0, p.1 - 1)))
            },
{
    let a = rx * rx;
    let b = ry * ry;
    let oa = (rx + 1) * (rx + 1);
    let ob = (ry + 1) * (ry + 1);
    assert(a >= 0 && b >= 0) by (nonlinear_arith)
        requires
            a == rx * rx,
            b == ry * ry,
    ;
    let e = region1_end(a, b, 0, ry);
    let p1 = region1(a, b, 0, ry);
    let p2 = region2(a, b, e.0, e.1);
    let v1 = virtual_r1(a, b, oa, ob, ry, 0, ry);
    let v2 = virtual_r2(a, b, oa, ob, e.0, e.1);
    lemma_virtual_r1_bridges(a, b, oa, ob, ry, 0, ry);
    if ry >= 1 {
        assert(b > 0) by (nonlinear_arith)
            requires
                b == ry * ry,
                ry >= 1,
        ;
        assert(f4_above(a, b, 0, ry) == a * (4 * ry + 1)) by (nonlinear_arith)
            requires
                b == ry * ry,
        ;
        assert(a * (4 * ry + 1) >= 0) by (nonlinear_arith)
            requires
                a >= 0,
                ry >= 0,
        ;
        lemma_region1_touches(a, b, 0, ry);
    } else {
        assert(b * 0 >= a * ry) by (nonlinear_arith)
            requires
                ry <= 0,
                a >= 0,
        ;
        lemma_region1_over(a, b, 0, ry);
    }
    assert(a * e.1 <= b * e.0);
    lemma_virtual_r2_bridges(a, b, oa, ob, e.0, e.1);
    let q = quadrant(rx, ry);
    let v = virtual_pixels(rx, ry);
    assert(q == p1 + p2);
    assert(v == v1 + v2);
    assert forall|i: int| 0 <= i < q.len() implies {
        let p = #[trigger] q[i];
        &&& (in_region1(a, b, p.0, p.1) && f4_east(a, b, p.0, p.1) >= 0 && f4_east(
            oa,
            ob,
            p.0,
            p.1 + 1,
        ) + 8 * oa * (ry - p.1) < 0 ==> v.contains((p.0 + 1, p.1)))
        &&& (!in_region1(a, b, p.0, p.1) && f4_south(a, b, p.0, p.1) <= 0 && f4_south(
            oa,
            ob,
            p.0,
            p.1,
        ) > 0 ==> v.contains((p.0, p.1 - 1)))
    } by {
        let p = q[i];
        if i < p1.len() {
            assert(p == p1[i]);
            lemma_contains_concat(v1, v2, (p.0 + 1, p.1));
        } else {
            assert(p == p2[i - p1.len()]);
            lemma_contains_concat(v1, v2, (p.0, p.1 - 1));
        }
    }
}

} // verus!

verus! {

/// The cell `c` is the bridge that belongs beside the walk pixel `p`: in
/// region 1, the pixel `(x + 1, y)` after a diagonal step whose tracked
/// outer value `f4_east(oa, ob, x, y + 1) + 8 oa (s - y)` is negative; past
/// it, the pixel `(x, y - 1)` after a diagonal step whose midpoint
/// `(x + 1/2, y - 1)` lies outside the ellipse one cell larger.
pub open spec fn bridge_of(
    a: int,
    b: int,
    oa: int,
    ob: int,
    s: int,
    p: (int, int),
    c: (int, int),
) -> bool {
    ||| in_region1(a, b, p.0, p.1) && f4_east(a, b, p.0, p.1) >= 0 && f4_east(oa, ob, p.0, p.1 + 1)
        + 8 * oa * (s - p.1) < 0 && c == (p.0 + 1, p.1)
    ||| !in_region1(a, b, p.0, p.1) && f4_south(a, b, p.0, p.1) <= 0 && f4_south(oa, ob, p.0, p.1)
        > 0 && c == (p.0, p.1 - 1)
}

/// Every pixel of the bridged region 1 is a pixel of the plain region 1 or
/// the bridge beside one of them.
proof fn lemma_virtual_r1_only(a: int, b: int, oa: int, ob: int, s: int, x: int, y: int)
    ensures
        forall|k: int|
            0 <= k < virtual_r1(a, b, oa, ob, s, x, y).len() ==> region1(a, b, x, y).contains(
                #[trigger] virtual_r1(a, b, oa, ob, s, x, y)[k],
            ) || exists|i: int|
                0 <= i < region1(a, b, x, y).len() && bridge_of(
                    a,
                    b,
                    oa,
                    ob,
                    s,
                    region1(a, b, x, y)[i],
                    virtual_r1(a, b, oa, ob, s, x, y)[k],
                ),
    decreases region1_measure(a, b, x, y),
{
    if a >= 0 && b > 0 && in_region1(a, b, x, y) {
        let n = region1_next(a, b, x, y);
        lemma_region1_measure(a, b, x, y);
        lemma_virtual_r1_only(a, b, oa, ob, s, n.0, n.1);
        let p = region1(a, b, x, y);
        let t = region1(a, b, n.0, n.1);
        let bridge = if f4_east(a, b, x, y) >= 0 && outer_east(oa, ob, s, x, y) < 0 {
            seq![(x + 1, y)]
        } else {
            Seq::<(int, int)>::empty()
        };
        let v = virtual_r1(a, b, oa, ob, s, x, y);
        let w = virtual_r1(a, b, oa, ob, s, n.0, n.1);
        assert(v == seq![(x, y)] + bridge + w);
        assert(p == seq![(x, y)] + t);
        assert forall|k: int| 0 <= k < v.len() implies p.contains(#[trigger] v[k]) || exists|i: int|
            0 <= i < p.len() && bridge_of(a, b, oa, ob, s, p[i], v[k]) by {
            if k == 0 {
                assert(p[0] == v[0]);
            } else if k < 1 + bridge.len() {
                assert(v[k] == (x + 1, y));
                assert(p[0] == (x, y));
                assert(bridge_of(a, b, oa, ob, s, p[0], v[k]));
            } else {
                let c = v[k];
                assert(c == w[k - 1 - bridge.len()]);
                if t.contains(c) {
                    let j = choose|j: int| 0 <= j < t.len() && t[j] == c;
                    assert(p[j + 1] == c);
                } else {
                    let j = choose|j: int| 0 <= j < t.len() && bridge_of(a, b, oa, ob, s, t[j], c);
                    assert(p[j + 1] == t[j]);
                    assert(bridge_of(a, b, oa, ob, s, p[j + 1], c));
                }
            }
        }
    }
}

/// From a pixel past the slope -1 (`a y <= b x`), every pixel of the
/// bridged region 2 is a pixel of the plain region 2 or the bridge beside
/// one of them.
proof fn lemma_virtual_r2_only(a: int, b: int, oa: int, ob: int, s: int, x: int, y: int)
    requires
        a >= 0,
        b >= 0,
        a * y <= b * x,
    ensures
        forall|k: int|
            0 <= k < virtual_r2(a, b, oa, ob, x, y).len() ==> region2(a, b, x, y).contains(
                #[trigger] virtual_r2(a, b, oa, ob, x, y)[k],
            ) || exists|i: int|
                0 <= i < region2(a, b, x, y).len() && bridge_of(
                    a,
                    b,
                    oa,
                    ob,
                    s,
                    region2(a, b, x, y)[i],
                    virtual_r2(a, b, oa, ob, x, y)[k],
                ),
    decreases y + 1,
{
    if y >= 0 {
        let n = region2_next(a, b, x, y);
        assert(a * n.1 <= b * n.0) by (nonlinear_arith)
            requires
                a >= 0,
                b >= 0,
                a * y <= b * x,
                n.1 == y - 1,
                n.0 == x || n.0 == x + 1,
        ;
        lemma_virtual_r2_only(a, b, oa, ob, s, n.0, n.1);
        let p = region2(a, b, x, y);
        let t = region2(a, b, n.0, n.1);
        let bridge = if f4_south(a, b, x, y) <= 0 && f4_south(oa, ob, x, y) > 0 {
            seq![(x, y - 1)]
        } else {
            Seq::<(int, int)>::empty()
        };
        let v = virtual_r2(a, b, oa, ob, x, y);
        let w = virtual_r2(a, b, oa, ob, n.0, n.1);
        assert(v == seq![(x, y)] + bridge + w);
        assert(p == seq![(x, y)] + t);
        assert forall|k: int| 0 <= k < v.len() implies p.contains(#[trigger] v[k]) || exists|i: int|
            0 <= i < p.len() && bridge_of(a, b, oa, ob, s, p[i], v[k]) by {
            if k == 0 {
                assert(p[0] == v[0]);
            } else if k < 1 + bridge.len() {
                assert(v[k] == (x, y - 1));
                assert(p[0] == (x, y));
                assert(!in_region1(a, b, x, y));
                assert(bridge_of(a, b, oa, ob, s, p[0], v[k]));
            } else {
                let c = v[k];
                assert(c == w[k - 1 - bridge.len()]);
                if t.contains(c) {
                    let j = choose|j: int| 0 <= j < t.len() && t[j] == c;
                    assert(p[j + 1] == c);
                } else {
                    let j = choose|j: int| 0 <= j < t.len() && bridge_of(a, b, oa, ob, s, t[j], c);
                    assert(p[j + 1] == t[j]);
                    assert(bridge_of(a, b, oa, ob, s, p[j + 1], c));
                }
            }
        }
    }
}

/// Law: the bridged walk plots nothing but the plain midpoint walk and its
/// bridges. With `a = rx²`, `b = ry²`, `oa = (rx + 1)²` and
/// `ob = (ry + 1)²`, every pixel it plots is a quadrant pixel of the
/// midpoint ellipse with the same radii, or the bridge that belongs beside
/// one of them (`bridge_of`).
pub proof fn lemma_virtual_only_bridges(rx: int, ry: int)
    ensures
        forall|k: int|
            0 <= k < virtual_pixels(rx, ry).len() ==> quadrant(rx, ry).contains(
                #[trigger] virtual_pixels(rx, ry)[k],
            ) || exists|i: int|
                0 <= i < quadrant(rx, ry).len() && bridge_of(
                    rx * rx,
                    ry * ry,
                    (rx + 1) * (rx + 1),
                    (ry + 1) * (ry + 1),
                    ry,
                    quadrant(rx, ry)[i],
                    virtual_pixels(rx, ry)[k],
                ),
{
    let a = rx * rx;
    let b = ry * ry;
    let oa = (rx + 1) * (rx + 1);
    let ob = (ry + 1) * (ry + 1);
    assert(a >= 0 && b >= 0) by (nonlinear_arith)
        requires
            a == rx * rx,
            b == ry * ry,
    ;
    let e = region1_end(a, b, 0, ry);
    let p1 = region1(a, b, 0, ry);
    let p2 = region2(a, b, e.0, e.1);
    let v1 = virtual_r1(a, b, oa, ob, ry, 0, ry);
    let v2 = virtual_r2(a, b, oa, ob, e.0, e.1);
    assert(a * e.1 <= b * e.0) by {
        if ry >= 1 {
            assert(b > 0) by (nonlinear_arith)
                requires
                    b == ry * ry,
                    ry >= 1,
            ;
            assert(f4_above(a, b, 0, ry) == a * (4 * ry + 1)) by (nonlinear_arith)
                requires
                    b == ry * ry,
            ;
            assert(a * (4 * ry + 1) >= 0) by (nonlinear_arith)
                requires
                    a >= 0,
                    ry >= 0,
            ;
            lemma_region1_touches(a, b, 0, ry);
        } else {
            assert(b * 0 >= a * ry) by (nonlinear_arith)
                requires
                    ry <= 0,
                    a >= 0,
            ;
            lemma_region1_over(a, b, 0, ry);
        }
    }
    lemma_virtual_r1_only(a, b, oa, ob, ry, 0, ry);
    lemma_virtual_r2_only(a, b, oa, ob, ry, e.0, e.1);
    let q = quadrant(rx, ry);
    let v = virtual_pixels(rx, ry);
    assert(q == p1 + p2);
    assert(v == v1 + v2);
    assert forall|k: int| 0 <= k < v.len() implies q.contains(#[trigger] v[k]) || exists|i: int|
        0 <= i < q.len() && bridge_of(a, b, oa, ob, ry, q[i], v[k]) by {
        let c = v[k];
        if k < v1.len() {
            assert(c == v1[k]);
            if p1.contains(c) {
                let j = choose|j: int| 0 <= j < p1.len() && p1[j] == c;
                assert(q[j] == c);
            } else {
                let j = choose|j: int| 0 <= j < p1.len() && bridge_of(a, b, oa, ob, ry, p1[j], c);
                assert(q[j] == p1[j]);
                assert(bridge_of(a, b, oa, ob, ry, q[j], c));
            }
        } else {
            assert(c == v2[k - v1.len()]);
            if p2.contains(c) {
                let j = choose|j: int| 0 <= j < p2.len() && p2[j] == c;
                assert(q[p1.len() + j] == c);
            } else {
                let j = choose|j: int| 0 <= j < p2.len() && bridge_of(a, b, oa, ob, ry, p2[j], c);
                assert(q[p1.len() + j] == p2[j]);
                assert(bridge_of(a, b, oa, ob, ry, q[p1.len() + j], c));
            }
        }
    }
}

} // verus!

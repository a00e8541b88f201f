//! The midpoint (Bresenham) line between two grid cells.
use vstd::prelude::*;

use crate::algorithms::{cell, cells, lemma_cells_push, Point};

verus! {

/// The error term of the walk after `nx` steps along x and `ny` along y.
pub open spec fn line_err(dx: int, dy: int, nx: int, ny: int) -> int {
    dx * (ny + 1) - dy * (nx + 1)
}

/// Whether the walk steps along x from `(nx, ny)`.
pub open spec fn steps_x(dx: int, dy: int, nx: int, ny: int) -> bool {
    2 * line_err(dx, dy, nx, ny) > -dy
}

/// Whether the walk steps along y from `(nx, ny)`.
pub open spec fn steps_y(dx: int, dy: int, nx: int, ny: int) -> bool {
    2 * line_err(dx, dy, nx, ny) < dx
}

/// The step counts visited from `(nx, ny)` until `(dx, dy)` is reached.
pub open spec fn line_steps(dx: int, dy: int, nx: int, ny: int) -> Seq<(int, int)>
    decreases (dx - nx) + (dy - ny),
{
    if !(0 <= nx <= dx && 0 <= ny <= dy) {
        Seq::empty()
    } else if nx == dx && ny == dy {
        seq![(nx, ny)]
    } else {
        let nx2 = if steps_x(dx, dy, nx, ny) {
            nx + 1
        } else {
            nx
        };
        let ny2 = if steps_y(dx, dy, nx, ny) {
            ny + 1
        } else {
            ny
        };
        if nx2 > dx || ny2 > dy || (nx2 == nx && ny2 == ny) {
            seq![(nx, ny)]
        } else {
            seq![(nx, ny)] + line_steps(dx, dy, nx2, ny2)
        }
    }
}

/// The direction of travel from `a` to `b` along one axis.
pub open spec fn dir(a: int, b: int) -> int {
    if a < b {
        1
    } else {
        -1
    }
}

/// The cells of the midpoint line from `(x0, y0)` to `(x1, y1)`.
pub open spec fn line_cells(x0: int, y0: int, x1: int, y1: int) -> Seq<(int, int)> {
    let dx = if x1 >= x0 {
        x1 - x0
    } else {
        x0 - x1
    };
    let dy = if y1 >= y0 {
        y1 - y0
    } else {
        y0 - y1
    };
    line_steps(dx, dy, 0, 0).map_values(
        |s: (int, int)| (x0 + dir(x0, x1) * s.0, y0 + dir(y0, y1) * s.1),
    )
}

/// The error term stays within `[-(3dy + dx), 3dx + dy]` once doubled.
pub open spec fn err_bounded(dx: int, dy: int, nx: int, ny: int) -> bool {
    -3 * dy - dx <= 2 * line_err(dx, dy, nx, ny) <= 3 * dx + dy
}

/// Endpoints close enough that the walk's doubled error term fits an `i32`.
pub open spec fn line_fits(x0: int, y0: int, x1: int, y1: int) -> bool {
    &&& -0x1fff_ffff <= x1 - x0 <= 0x1fff_ffff
    &&& -0x1fff_ffff <= y1 - y0 <= 0x1fff_ffff
}

/// From a state short of the end, the walk makes progress and does not
/// overshoot the end.
pub proof fn lemma_line_step(dx: int, dy: int, nx: int, ny: int)
    requires
        0 <= nx <= dx,
        0 <= ny <= dy,
        !(nx == dx && ny == dy),
        err_bounded(dx, dy, nx, ny),
    ensures
        steps_x(dx, dy, nx, ny) ==> nx + 1 <= dx,
        steps_y(dx, dy, nx, ny) ==> ny + 1 <= dy,
        steps_x(dx, dy, nx, ny) || steps_y(dx, dy, nx, ny),
        err_bounded(
            dx,
            dy,
            if steps_x(dx, dy, nx, ny) {
                nx + 1
            } else {
                nx
            },
            if steps_y(dx, dy, nx, ny) {
                ny + 1
            } else {
                ny
            },
        ),
{
    let e = line_err(dx, dy, nx, ny);
    if steps_x(dx, dy, nx, ny) && nx == dx {
        assert(ny <= dy - 1);
        assert(2 * e <= -dy) by (nonlinear_arith)
            requires
                e == dx * (ny + 1) - dy * (nx + 1),
                nx == dx,
                ny <= dy - 1,
                dx >= 0,
                dy >= 0,
        ;
    }
    if steps_y(dx, dy, nx, ny) && ny == dy {
        assert(nx <= dx - 1);
        assert(2 * e >= dx) by (nonlinear_arith)
            requires
                e == dx * (ny + 1) - dy * (nx + 1),
                ny == dy,
                nx <= dx - 1,
                dx >= 0,
                dy >= 0,
        ;
    }
    let nx2 = if steps_x(dx, dy, nx, ny) {
        nx + 1
    } else {
        nx
    };
    let ny2 = if steps_y(dx, dy, nx, ny) {
        ny + 1
    } else {
        ny
    };
    assert(line_err(dx, dy, nx2, ny2) == e - (if steps_x(dx, dy, nx, ny) {
        dy
    } else {
        0
    }) + (if steps_y(dx, dy, nx, ny) {
        dx
    } else {
        0
    })) by (nonlinear_arith)
        requires
            e == dx * (ny + 1) - dy * (nx + 1),
            nx2 == nx || nx2 == nx + 1,
            ny2 == ny || ny2 == ny + 1,
            (nx2 == nx + 1) == steps_x(dx, dy, nx, ny),
            (ny2 == ny + 1) == steps_y(dx, dy, nx, ny),
    ;
}

/// Two step counts that differ by one step along x, along y, or both.
pub open spec fn one_step(p: (int, int), q: (int, int)) -> bool {
    &&& q.0 - p.0 == 0 || q.0 - p.0 == 1
    &&& q.1 - p.1 == 0 || q.1 - p.1 == 1
    &&& q != p
}

/// From a reachable state the walk starts there, ends at `(dx, dy)` and
/// moves by one step at a time.
pub proof fn lemma_line_steps_shape(dx: int, dy: int, nx: int, ny: int)
    requires
        0 <= nx <= dx,
        0 <= ny <= dy,
        err_bounded(dx, dy, nx, ny),
    ensures
        line_steps(dx, dy, nx, ny).len() >= 1,
        line_steps(dx, dy, nx, ny)[0] == (nx, ny),
        line_steps(dx, dy, nx, ny).last() == (dx, dy),
        forall|i: int|
            0 <= i < line_steps(dx, dy, nx, ny).len() - 1 ==> one_step(
                #[trigger] line_steps(dx, dy, nx, ny)[i],
                line_steps(dx, dy, nx, ny)[i + 1],
            ),
        line_steps(dx, dy, nx, ny).len() <= (dx - nx) + (dy - ny) + 1,
    decreases (dx - nx) + (dy - ny),
{
    if !(nx == dx && ny == dy) {
        lemma_line_step(dx, dy, nx, ny);
        let nx2 = if steps_x(dx, dy, nx, ny) {
            nx + 1
        } else {
            nx
        };
        let ny2 = if steps_y(dx, dy, nx, ny) {
            ny + 1
        } else {
            ny
        };
        lemma_line_steps_shape(dx, dy, nx2, ny2);
        let s = line_steps(dx, dy, nx, ny);
        let t = line_steps(dx, dy, nx2, ny2);
        assert(s == seq![(nx, ny)] + t);
        assert forall|i: int| 0 <= i < s.len() - 1 implies one_step(
            #[trigger] s[i],
            s[i + 1],
        ) by {
            if i == 0 {
                assert(s[1] == t[0]);
            } else {
                assert(s[i] == t[i - 1] && s[i + 1] == t[i]);
            }
        }
    }
}

/// Law: the midpoint line starts at `(x0, y0)`, ends at `(x1, y1)`, and each
/// cell is a king's move from the previous one, towards the end point.
pub proof fn lemma_line_connects(x0: int, y0: int, x1: int, y1: int)
    ensures
        line_cells(x0, y0, x1, y1).len() >= 1,
        line_cells(x0, y0, x1, y1)[0] == (x0, y0),
        line_cells(x0, y0, x1, y1).last() == (x1, y1),
        forall|i: int|
            0 <= i < line_cells(x0, y0, x1, y1).len() - 1 ==> {
                let p = #[trigger] line_cells(x0, y0, x1, y1)[i];
                let q = line_cells(x0, y0, x1, y1)[i + 1];
                &&& q.0 - p.0 == 0 || q.0 - p.0 == dir(x0, x1)
                &&& q.1 - p.1 == 0 || q.1 - p.1 == dir(y0, y1)
                &&& q != p
            },
{
    let dx = if x1 >= x0 {
        x1 - x0
    } else {
        x0 - x1
    };
    let dy = if y1 >= y0 {
        y1 - y0
    } else {
        y0 - y1
    };
    assert(line_err(dx, dy, 0, 0) == dx - dy) by (nonlinear_arith);
    lemma_line_steps_shape(dx, dy, 0, 0);
    let s = line_steps(dx, dy, 0, 0);
    let c = line_cells(x0, y0, x1, y1);
    let sx = dir(x0, x1);
    let sy = dir(y0, y1);
    assert(c[0] == (x0 + sx * 0, y0 + sy * 0));
    assert(sx * 0 == 0 && sy * 0 == 0) by (nonlinear_arith);
    assert(c.last() == (x0 + sx * dx, y0 + sy * dy));
    assert(x0 + sx * dx == x1 && y0 + sy * dy == y1) by (nonlinear_arith)
        requires
            sx == dir(x0, x1),
            sy == dir(y0, y1),
            dx == (if x1 >= x0 { x1 - x0 } else { x0 - x1 }),
            dy == (if y1 >= y0 { y1 - y0 } else { y0 - y1 }),
    ;
    assert forall|i: int| 0 <= i < c.len() - 1 implies {
        let p = #[trigger] c[i];
        let q = c[i + 1];
        &&& q.0 - p.0 == 0 || q.0 - p.0 == dir(x0, x1)
        &&& q.1 - p.1 == 0 || q.1 - p.1 == dir(y0, y1)
        &&& q != p
    } by {
        assert(one_step(s[i], s[i + 1]));
        let a = s[i];
        let b = s[i + 1];
        assert(c[i] == (x0 + sx * a.0, y0 + sy * a.1));
        assert(c[i + 1] == (x0 + sx * b.0, y0 + sy * b.1));
        assert(sx * b.0 - sx * a.0 == sx * (b.0 - a.0)) by (nonlinear_arith);
        assert(sy * b.1 - sy * a.1 == sy * (b.1 - a.1)) by (nonlinear_arith);
        if b.0 - a.0 == 1 {
            assert(sx * (b.0 - a.0) == sx) by (nonlinear_arith)
                requires
                    b.0 - a.0 == 1,
            ;
        } else {
            assert(sx * (b.0 - a.0) == 0) by (nonlinear_arith)
                requires
                    b.0 - a.0 == 0,
            ;
        }
        if b.1 - a.1 == 1 {
            assert(sy * (b.1 - a.1) == sy) by (nonlinear_arith)
                requires
                    b.1 - a.1 == 1,
            ;
        } else {
            assert(sy * (b.1 - a.1) == 0) by (nonlinear_arith)
                requires
                    b.1 - a.1 == 0,
            ;
        }
    }
}

pub struct MidpointLine {
    pub x0: i32,
    pub y0: i32,
    pub x1: i32,
    pub y1: i32,
    pub points: Vec<Point>,
}

impl Default for MidpointLine {
    /// The line from (-10, -5) to (15, 10), already computed.
    fn default() -> (s: Self)
        ensures
            s.x0 == -10 && s.y0 == -5 && s.x1 == 15 && s.y1 == 10,
            cells(s.points@) == line_cells(-10, -5, 15, 10),
    {
        let mut s = MidpointLine { x0: -10, y0: -5, x1: 15, y1: 10, points: Vec::new() };
        s.compute();
        s
    }
}

impl MidpointLine {
    pub fn name(&self) -> (n: &'static str)
        ensures
            n@ == "Midpoint Line"@,
    {
        "Midpoint Line"
    }

    pub fn category(&self) -> (c: &'static str)
        ensures
            c@ == "line"@,
    {
        "line"
    }

    /// Walk from `(x0, y0)` to `(x1, y1)`, stepping along x when twice the
    /// error exceeds `-dy` and along y when it is below `dx`.
    pub fn compute(&mut self)
        requires
            line_fits(old(self).x0 as int, old(self).y0 as int, old(self).x1 as int, old(self).y1 as int),
        ensures
            final(self).x0 == old(self).x0,
            final(self).y0 == old(self).y0,
            final(self).x1 == old(self).x1,
            final(self).y1 == old(self).y1,
            cells(final(self).points@) == line_cells(
                old(self).x0 as int,
                old(self).y0 as int,
                old(self).x1 as int,
                old(self).y1 as int,
            ),
    {
        self.points.clear();
        let x0 = self.x0;
        let y0 = self.y0;
        let x1 = self.x1;
        let y1 = self.y1;
        let dx = if x1 >= x0 {
            x1 - x0
        } else {
            x0 - x1
        };
        let dy = if y1 >= y0 {
            y1 - y0
        } else {
            y0 - y1
        };
        let sx: i32 = if x0 < x1 {
            1
        } else {
            -1
        };
        let sy: i32 = if y0 < y1 {
            1
        } else {
            -1
        };
        let mut err = dx - dy;
        let mut x = x0;
        let mut y = y0;
        let ghost mut nx: int = 0;
        let ghost mut ny: int = 0;
        let ghost f = |s: (int, int)|
            (x0 as int + dir(x0 as int, x1 as int) * s.0, y0 as int + dir(y0 as int, y1 as int) * s.1);
        let ghost total = line_steps(dx as int, dy as int, 0, 0);
        proof {
            assert(cells(self.points@) + line_steps(dx as int, dy as int, nx, ny).map_values(f)
                =~= line_cells(x0 as int, y0 as int, x1 as int, y1 as int));
        }
        loop
            invariant_except_break
                self.x0 == x0 && self.y0 == y0 && self.x1 == x1 && self.y1 == y1,
                line_fits(x0 as int, y0 as int, x1 as int, y1 as int),
                dx == (if x1 >= x0 { x1 - x0 } else { x0 - x1 }),
                dy == (if y1 >= y0 { y1 - y0 } else { y0 - y1 }),
                sx == dir(x0 as int, x1 as int),
                sy == dir(y0 as int, y1 as int),
                f == (|s: (int, int)|
                    (x0 as int + dir(x0 as int, x1 as int) * s.0, y0 as int + dir(
                        y0 as int,
                        y1 as int,
                    ) * s.1)),
                0 <= nx <= dx,
                0 <= ny <= dy,
                x == x0 + sx * nx,
                y == y0 + sy * ny,
                err == line_err(dx as int, dy as int, nx, ny),
                err_bounded(dx as int, dy as int, nx, ny),
                cells(self.points@) + line_steps(dx as int, dy as int, nx, ny).map_values(f)
                    == line_cells(x0 as int, y0 as int, x1 as int, y1 as int),
            ensures
                self.x0 == x0 && self.y0 == y0 && self.x1 == x1 && self.y1 == y1,
                cells(self.points@) == line_cells(x0 as int, y0 as int, x1 as int, y1 as int),
            decreases (dx - nx) + (dy - ny),
        {
            let ghost before = self.points@;
            let p = Point { x, y };
            self.points.push(p);
            proof {
                lemma_cells_push(before, p);
            }
            if x == x1 && y == y1 {
                proof {
                    assert(nx == dx && ny == dy) by (nonlinear_arith)
                        requires
                            x == x0 + sx * nx,
                            y == y0 + sy * ny,
                            x == x1,
                            y == y1,
                            sx == dir(x0 as int, x1 as int),
                            sy == dir(y0 as int, y1 as int),
                            dx == (if x1 >= x0 { x1 - x0 } else { x0 - x1 }),
                            dy == (if y1 >= y0 { y1 - y0 } else { y0 - y1 }),
                    ;
                    assert(line_steps(dx as int, dy as int, nx, ny) == seq![(nx, ny)]);
                    assert(line_steps(dx as int, dy as int, nx, ny).map_values(f) =~= seq![
                        cell(p),
                    ]);
                    assert(cells(self.points@) =~= line_cells(
                        x0 as int,
                        y0 as int,
                        x1 as int,
                        y1 as int,
                    ));
                }
                break;
            }
            proof {
                if nx == dx && ny == dy {
                    assert(x == x1 && y == y1) by (nonlinear_arith)
                        requires
                            x == x0 + sx * nx,
                            y == y0 + sy * ny,
                            nx == dx,
                            ny == dy,
                            sx == dir(x0 as int, x1 as int),
                            sy == dir(y0 as int, y1 as int),
                            dx == (if x1 >= x0 { x1 - x0 } else { x0 - x1 }),
                            dy == (if y1 >= y0 { y1 - y0 } else { y0 - y1 }),
                    ;
                }
                lemma_line_step(dx as int, dy as int, nx, ny);
            }
            let ghost rest = line_steps(dx as int, dy as int, nx, ny);
            let ghost sx_step = steps_x(dx as int, dy as int, nx, ny);
            let ghost sy_step = steps_y(dx as int, dy as int, nx, ny);
            let e2 = 2 * err;
            if e2 > -dy {
                err -= dy;
                x += sx;
                proof {
                    nx = nx + 1;
                }
            }
            if e2 < dx {
                err += dx;
                y += sy;
                proof {
                    ny = ny + 1;
                }
            }
            proof {
                assert(rest == seq![(if sx_step { nx - 1 } else { nx }, if sy_step { ny - 1 } else { ny })]
                    + line_steps(dx as int, dy as int, nx, ny));
                assert(err == line_err(dx as int, dy as int, nx, ny)) by (nonlinear_arith)
                    requires
                        err == line_err(dx as int, dy as int, if sx_step { nx - 1 } else { nx }, if sy_step { ny - 1 } else { ny }) - (if sx_step { dy } else { 0 }) + (if sy_step { dx } else { 0 }),
                ;
                assert(x == x0 + sx * nx && y == y0 + sy * ny) by (nonlinear_arith)
                    requires
                        x == x0 + sx * (if sx_step { nx - 1 } else { nx }) + (if sx_step { sx } else { 0 }),
                        y == y0 + sy * (if sy_step { ny - 1 } else { ny }) + (if sy_step { sy } else { 0 }),
                ;
                assert(cells(self.points@) + line_steps(dx as int, dy as int, nx, ny).map_values(f)
                    =~= line_cells(x0 as int, y0 as int, x1 as int, y1 as int));
            }
        }
    }

    /// The plotted points, in plotting order.
    pub fn points(&self) -> (ps: &[Point])
        ensures
            ps@ == self.points@,
    {
        self.points.as_slice()
    }
}

} // verus!

verus! {

/// Along a sequence whose consecutive entries are steps, the sum of the two
/// step counts strictly increases.
proof fn lemma_step_sums_increase(s: Seq<(int, int)>, i: int, j: int)
    requires
        forall|k: int| 0 <= k < s.len() - 1 ==> one_step(#[trigger] s[k], s[k + 1]),
        0 <= i < j < s.len(),
    ensures
        s[i].0 + s[i].1 < s[j].0 + s[j].1,
    decreases j - i,
{
    assert(one_step(s[j - 1], s[j]));
    if i < j - 1 {
        lemma_step_sums_increase(s, i, j - 1);
    }
}

/// Law: the midpoint line plots no cell twice.
pub proof fn lemma_line_cells_distinct(x0: int, y0: int, x1: int, y1: int)
    ensures
        forall|i: int, j: int|
            0 <= i < j < line_cells(x0, y0, x1, y1).len() ==> #[trigger] line_cells(
                x0,
                y0,
                x1,
                y1,
            )[i] != #[trigger] line_cells(x0, y0, x1, y1)[j],
{
    let dx = if x1 >= x0 {
        x1 - x0
    } else {
        x0 - x1
    };
    let dy = if y1 >= y0 {
        y1 - y0
    } else {
        y0 - y1
    };
    assert(line_err(dx, dy, 0, 0) == dx - dy) by (nonlinear_arith);
    lemma_line_steps_shape(dx, dy, 0, 0);
    let s = line_steps(dx, dy, 0, 0);
    let c = line_cells(x0, y0, x1, y1);
    let sx = dir(x0, x1);
    let sy = dir(y0, y1);
    assert forall|i: int, j: int| 0 <= i < j < c.len() implies #[trigger] c[i] != #[trigger] c[j] by {
        lemma_step_sums_increase(s, i, j);
        assert(c[i] == (x0 + sx * s[i].0, y0 + sy * s[i].1));
        assert(c[j] == (x0 + sx * s[j].0, y0 + sy * s[j].1));
        if c[i] == c[j] {
            assert(s[i].0 == s[j].0 && s[i].1 == s[j].1) by (nonlinear_arith)
                requires
                    sx == 1 || sx == -1,
                    sy == 1 || sy == -1,
                    sx * s[i].0 == sx * s[j].0,
                    sy * s[i].1 == sy * s[j].1,
            ;
        }
    }
}

} // verus!

verus! {

/// The distance between `a` and `b` along one axis.
pub open spec fn span(a: int, b: int) -> int {
    if b >= a {
        b - a
    } else {
        a - b
    }
}

/// The longer of the two extents: the number of steps along the major axis.
pub open spec fn line_major(dx: int, dy: int) -> int {
    if dx >= dy {
        dx
    } else {
        dy
    }
}

/// Twice the signed distance, scaled by the major extent, between the state
/// `(nx, ny)` and the ideal segment from `(0, 0)` to `(dx, dy)`.
pub open spec fn segment_offset(dx: int, dy: int, nx: int, ny: int) -> int {
    2 * (dx * ny - dy * nx)
}

/// The states the walk visits: within half a cell of the ideal segment, and
/// on the diagonal itself when both extents agree.
pub open spec fn near_segment(dx: int, dy: int, nx: int, ny: int) -> bool {
    &&& -line_major(dx, dy) <= segment_offset(dx, dy, nx, ny) <= line_major(dx, dy)
    &&& dx == dy ==> segment_offset(dx, dy, nx, ny) == 0
}

/// From a state near the segment, the walk steps once along the major axis
/// each time, and every state it visits stays near the segment.
proof fn lemma_line_major_steps(dx: int, dy: int, nx: int, ny: int)
    requires
        0 <= nx <= dx,
        0 <= ny <= dy,
        near_segment(dx, dy, nx, ny),
    ensures
        line_steps(dx, dy, nx, ny).len() == (if dx >= dy {
            dx - nx
        } else {
            dy - ny
        }) + 1,
        forall|i: int|
            0 <= i < line_steps(dx, dy, nx, ny).len() ==> {
                let p = #[trigger] line_steps(dx, dy, nx, ny)[i];
                &&& 0 <= p.0 <= dx
                &&& 0 <= p.1 <= dy
                &&& near_segment(dx, dy, p.0, p.1)
                &&& (if dx >= dy {
                    p.0 == nx + i
                } else {
                    p.1 == ny + i
                })
            },
    decreases (dx - nx) + (dy - ny),
{
    let g = segment_offset(dx, dy, nx, ny);
    let e = line_err(dx, dy, nx, ny);
    assert(2 * e == g + 2 * dx - 2 * dy) by (nonlinear_arith)
        requires
            e == dx * (ny + 1) - dy * (nx + 1),
            g == 2 * (dx * ny - dy * nx),
    ;
    let s = line_steps(dx, dy, nx, ny);
    if !(nx == dx && ny == dy) {
        lemma_line_step(dx, dy, nx, ny);
        let sx = steps_x(dx, dy, nx, ny);
        let sy = steps_y(dx, dy, nx, ny);
        if dx >= dy {
            assert(sx);
        } else {
            assert(sy);
        }
        let nx2 = if sx {
            nx + 1
        } else {
            nx
        };
        let ny2 = if sy {
            ny + 1
        } else {
            ny
        };
        let g2 = segment_offset(dx, dy, nx2, ny2);
        assert(g2 == g - (if sx {
            2 * dy
        } else {
            0
        }) + (if sy {
            2 * dx
        } else {
            0
        })) by (nonlinear_arith)
            requires
                g == 2 * (dx * ny - dy * nx),
                g2 == 2 * (dx * ny2 - dy * nx2),
                nx2 == nx || nx2 == nx + 1,
                ny2 == ny || ny2 == ny + 1,
                (nx2 == nx + 1) == sx,
                (ny2 == ny + 1) == sy,
        ;
        assert(near_segment(dx, dy, nx2, ny2));
        lemma_line_major_steps(dx, dy, nx2, ny2);
        let t = line_steps(dx, dy, nx2, ny2);
        assert(s == seq![(nx, ny)] + t);
        assert forall|i: int| 0 <= i < s.len() implies {
            let p = #[trigger] s[i];
            &&& 0 <= p.0 <= dx
            &&& 0 <= p.1 <= dy
            &&& near_segment(dx, dy, p.0, p.1)
            &&& (if dx >= dy {
                p.0 == nx + i
            } else {
                p.1 == ny + i
            })
        } by {
            if i > 0 {
                assert(s[i] == t[i - 1]);
            }
        }
    } else {
        assert(s == seq![(nx, ny)]);
    }
}

/// Law: the midpoint line holds one cell per step along its major axis,
/// `max(|x1 - x0|, |y1 - y0|) + 1` cells in all; its `i`-th cell lies `i`
/// steps from `(x0, y0)` along that axis, and its offset along the other
/// axis is the exact value rounded: within half a cell of the ideal
/// segment.
pub proof fn lemma_line_follows_segment(x0: int, y0: int, x1: int, y1: int)
    ensures
        line_cells(x0, y0, x1, y1).len() == line_major(span(x0, x1), span(y0, y1)) + 1,
        forall|i: int|
            0 <= i < line_cells(x0, y0, x1, y1).len() ==> {
                let c = #[trigger] line_cells(x0, y0, x1, y1)[i];
                let dx = span(x0, x1);
                let dy = span(y0, y1);
                &&& (if dx >= dy {
                    span(x0, c.0) == i
                } else {
                    span(y0, c.1) == i
                })
                &&& -line_major(dx, dy) <= 2 * (dx * span(y0, c.1) - dy * span(x0, c.0))
                    <= line_major(dx, dy)
            },
{
    let dx = span(x0, x1);
    let dy = span(y0, y1);
    assert(segment_offset(dx, dy, 0, 0) == 0) by (nonlinear_arith);
    lemma_line_major_steps(dx, dy, 0, 0);
    let s = line_steps(dx, dy, 0, 0);
    let c = line_cells(x0, y0, x1, y1);
    let sx = dir(x0, x1);
    let sy = dir(y0, y1);
    assert forall|i: int| 0 <= i < c.len() implies {
        let p = #[trigger] c[i];
        &&& (if dx >= dy {
            span(x0, p.0) == i
        } else {
            span(y0, p.1) == i
        })
        &&& -line_major(dx, dy) <= 2 * (dx * span(y0, p.1) - dy * span(x0, p.0)) <= line_major(
            dx,
            dy,
        )
    } by {
        let q = s[i];
        assert(c[i] == (x0 + sx * q.0, y0 + sy * q.1));
        assert(span(x0, x0 + sx * q.0) == q.0) by (nonlinear_arith)
            requires
                sx == 1 || sx == -1,
                q.0 >= 0,
        ;
        assert(span(y0, y0 + sy * q.1) == q.1) by (nonlinear_arith)
            requires
                sy == 1 || sy == -1,
                q.1 >= 0,
        ;
    }
}

} // verus!

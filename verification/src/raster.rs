//! The rasterizer: an all-octant integer midpoint line algorithm. The
//! contract pins down exactly which cells a line lights, through a closed
//! form for the k-th traversed cell.
use crate::screen::Screen;
use vstd::arithmetic::div_mod::lemma_fundamental_div_mod_converse_div;
use vstd::prelude::*;

verus! {

/// The distance between two coordinates.
pub open spec fn dist(a: int, b: int) -> int {
    if b >= a {
        b - a
    } else {
        a - b
    }
}

/// Number of unit steps the midpoint line from (x0,y0) to (x1,y1) takes:
/// the larger coordinate distance. The line visits one more cell than that.
pub open spec fn step_count(x0: int, y0: int, x1: int, y1: int) -> int {
    vstd::math::max(dist(x0, x1), dist(y0, y1))
}

/// The k-th cell of the midpoint line from (x0,y0) to (x1,y1), for
/// 0 <= k <= step_count. The major axis advances one cell per step toward
/// its endpoint; the minor axis has advanced by round(k * d_minor / d_major)
/// where the rounding is the one an error term seeded with d_major / 2
/// produces: floor((k * d_minor + d_major - 1 - d_major / 2) / d_major).
pub open spec fn line_point(x0: int, y0: int, x1: int, y1: int, k: int) -> (int, int) {
    let dx = dist(x0, x1);
    let dy = dist(y0, y1);
    let sx: int = if x0 < x1 {
        1
    } else {
        -1
    };
    let sy: int = if y0 < y1 {
        1
    } else {
        -1
    };
    if dx > dy {
        (x0 + k * sx, y0 + sy * ((k * dy + (dx - 1 - dx / 2)) / dx))
    } else if dy > 0 {
        (x0 + sx * ((k * dx + (dy - 1 - dy / 2)) / dy), y0 + k * sy)
    } else {
        (x0, y0)
    }
}

/// `cells` with the cell at `p` lit when `p` lies inside a w-by-h grid;
/// unchanged otherwise (out-of-grid cells are clipped, never written).
pub open spec fn lit_cell(cells: Seq<bool>, w: int, h: int, p: (int, int)) -> Seq<bool> {
    if 0 <= p.0 < w && 0 <= p.1 < h {
        cells.update(p.0 + p.1 * w, true)
    } else {
        cells
    }
}

/// `cells` after lighting the first `n` cells of the line.
pub open spec fn with_line_prefix(
    cells: Seq<bool>,
    w: int,
    h: int,
    x0: int,
    y0: int,
    x1: int,
    y1: int,
    n: int,
) -> Seq<bool>
    decreases n,
{
    if n <= 0 {
        cells
    } else {
        lit_cell(
            with_line_prefix(cells, w, h, x0, y0, x1, y1, n - 1),
            w,
            h,
            line_point(x0, y0, x1, y1, n - 1),
        )
    }
}

/// `cells` after lighting every cell of the line, both endpoints included.
pub open spec fn with_line(
    cells: Seq<bool>,
    w: int,
    h: int,
    x0: int,
    y0: int,
    x1: int,
    y1: int,
) -> Seq<bool> {
    with_line_prefix(cells, w, h, x0, y0, x1, y1, step_count(x0, y0, x1, y1) + 1)
}

/// Pointwise reading of a drawn line: after lighting the first `n` cells of
/// a line, an in-grid cell is lit exactly when it was lit before or is one
/// of those `n` cells.
pub proof fn lemma_with_line_prefix_cell(
    cells: Seq<bool>,
    w: int,
    h: int,
    x0: int,
    y0: int,
    x1: int,
    y1: int,
    n: int,
    cx: int,
    cy: int,
)
    requires
        cells.len() == w * h,
        0 <= cx < w,
        0 <= cy < h,
    ensures
        with_line_prefix(cells, w, h, x0, y0, x1, y1, n).len() == cells.len(),
        crate::screen::grid_cell(with_line_prefix(cells, w, h, x0, y0, x1, y1, n), w, cx, cy) == (
        crate::screen::grid_cell(cells, w, cx, cy) || exists|k: int|
            0 <= k < n && line_point(x0, y0, x1, y1, k) == (cx, cy)),
    decreases n,
{
    crate::screen::lemma_cell_index_bound(cx, cy, w, h);
    if n > 0 {
        lemma_with_line_prefix_cell(cells, w, h, x0, y0, x1, y1, n - 1, cx, cy);
        let prev = with_line_prefix(cells, w, h, x0, y0, x1, y1, n - 1);
        let p = line_point(x0, y0, x1, y1, n - 1);
        if 0 <= p.0 < w && 0 <= p.1 < h {
            crate::screen::lemma_cell_index_bound(p.0, p.1, w, h);
            if p.0 + p.1 * w == cx + cy * w {
                crate::screen::lemma_cell_index_injective(p.0, p.1, cx, cy, w, h);
                assert(line_point(x0, y0, x1, y1, n - 1) == (cx, cy));
            }
        }
        assert forall|k: int|
            0 <= k < n - 1 && line_point(x0, y0, x1, y1, k) == (cx, cy) implies 0 <= k < n
            && line_point(x0, y0, x1, y1, k) == (cx, cy) by {}
    }
}

/// Cell k of the full-width horizontal line from (0,0) to (w-1,0) is (k, 0).
proof fn lemma_horizontal_point(w: int, k: int)
    requires
        1 <= w,
        0 <= k <= w - 1,
    ensures
        line_point(0, 0, w - 1, 0, k) == (k, 0int),
{
    if w > 1 {
        let dx = w - 1;
        assert(k * 0 == 0) by (nonlinear_arith);
        assert(k * 1 == k) by (nonlinear_arith);
        vstd::arithmetic::div_mod::lemma_basic_div(dx - 1 - dx / 2, dx);
    }
}

/// Law: drawing the full-width horizontal line from (0,0) to (w-1,0) on a
/// blank grid lights exactly the w cells of row 0.
pub proof fn lemma_horizontal_line_cells(w: int, h: int)
    requires
        1 <= w,
        1 <= h,
    ensures
        forall|cx: int, cy: int|
            0 <= cx < w && 0 <= cy < h ==> #[trigger] crate::screen::grid_cell(
                with_line(crate::screen::blank_cells(w, h), w, h, 0, 0, w - 1, 0),
                w,
                cx,
                cy,
            ) == (cy == 0),
{
    let cells = crate::screen::blank_cells(w, h);
    assert forall|cx: int, cy: int| 0 <= cx < w && 0 <= cy < h implies #[trigger] crate::screen::grid_cell(
        with_line(cells, w, h, 0, 0, w - 1, 0),
        w,
        cx,
        cy,
    ) == (cy == 0) by {
        lemma_with_line_prefix_cell(cells, w, h, 0, 0, w - 1, 0, w, cx, cy);
        crate::screen::lemma_cell_index_bound(cx, cy, w, h);
        if cy == 0 {
            lemma_horizontal_point(w, cx);
        } else {
            assert forall|k: int| 0 <= k < w implies #[trigger] line_point(0, 0, w - 1, 0, k)
                != (cx, cy) by {
                lemma_horizontal_point(w, k);
            }
        }
    }
}

/// Multiplying by a unit or by zero.
proof fn lemma_unit_mul(v: int)
    ensures
        1 * v == v,
        -1 * v == -v,
        v * 1 == v,
        v * -1 == -v,
        0 * v == 0,
        v * 0 == 0,
{
    assert(1 * v == v && -1 * v == -v && v * 1 == v && v * -1 == -v && 0 * v == 0 && v * 0 == 0)
        by (nonlinear_arith);
}

/// Adding less than the divisor moves a quotient up by at most one.
proof fn lemma_div_step(a: int, e: int, d: int)
    requires
        d > 0,
        0 <= e < d,
    ensures
        a / d <= (a + e) / d <= a / d + 1,
{
    vstd::arithmetic::div_mod::lemma_fundamental_div_mod(a, d);
    vstd::arithmetic::div_mod::lemma_mod_bound(a, d);
    let q = a / d;
    let r = a % d;
    assert(d * q == q * d) by (nonlinear_arith);
    if r + e < d {
        lemma_fundamental_div_mod_converse_div(a + e, d, q, r + e);
    } else {
        assert((q + 1) * d == q * d + d) by (nonlinear_arith);
        lemma_fundamental_div_mod_converse_div(a + e, d, q + 1, r + e - d);
    }
}

/// Law: the line is traced from its start cell to its end cell inclusive:
/// cell 0 is the start and cell step_count is the end.
pub proof fn lemma_line_endpoints(x0: int, y0: int, x1: int, y1: int)
    ensures
        line_point(x0, y0, x1, y1, 0) == (x0, y0),
        line_point(x0, y0, x1, y1, step_count(x0, y0, x1, y1)) == (x1, y1),
{
    let dx = dist(x0, x1);
    let dy = dist(y0, y1);
    if dx > dy {
        let c = dx - 1 - dx / 2;
        lemma_unit_mul(dy);
        lemma_unit_mul(dx);
        lemma_unit_mul(0);
        assert(0 * dy == 0) by (nonlinear_arith);
        vstd::arithmetic::div_mod::lemma_basic_div(c, dx);
        assert((0 * dy + c) / dx == 0);
        assert(dx * dy == dy * dx) by (nonlinear_arith);
        vstd::arithmetic::div_mod::lemma_div_multiples_vanish_fancy(dy, c, dx);
        assert((dx * dy + c) / dx == dy);
    } else if dy > 0 {
        let c = dy - 1 - dy / 2;
        lemma_unit_mul(dx);
        lemma_unit_mul(dy);
        lemma_unit_mul(0);
        assert(0 * dx == 0) by (nonlinear_arith);
        vstd::arithmetic::div_mod::lemma_basic_div(c, dy);
        assert((0 * dx + c) / dy == 0);
        assert(dy * dx == dx * dy) by (nonlinear_arith);
        vstd::arithmetic::div_mod::lemma_div_multiples_vanish_fancy(dx, c, dy);
        assert((dy * dx + c) / dy == dx);
    }
}

/// Law: the traced line has no gaps: from each cell to the next, the line
/// moves at most one cell along each axis.
pub proof fn lemma_line_no_gaps(x0: int, y0: int, x1: int, y1: int, k: int)
    requires
        0 <= k < step_count(x0, y0, x1, y1),
    ensures
        dist(line_point(x0, y0, x1, y1, k).0, line_point(x0, y0, x1, y1, k + 1).0) <= 1,
        dist(line_point(x0, y0, x1, y1, k).1, line_point(x0, y0, x1, y1, k + 1).1) <= 1,
{
    let dx = dist(x0, x1);
    let dy = dist(y0, y1);
    lemma_unit_mul(k);
    lemma_unit_mul(k + 1);
    if dx > dy {
        let c = dx - 1 - dx / 2;
        assert((k + 1) * dy == k * dy + dy) by (nonlinear_arith);
        lemma_div_step(k * dy + c, dy, dx);
        lemma_unit_mul((k * dy + c) / dx);
        lemma_unit_mul((k * dy + dy + c) / dx);
        assert(((k + 1) * dy + c) / dx == (k * dy + dy + c) / dx);
    } else if dy > 0 {
        let c = dy - 1 - dy / 2;
        assert((k + 1) * dx == k * dx + dx) by (nonlinear_arith);
        if dx < dy {
            lemma_div_step(k * dx + c, dx, dy);
        } else {
            assert(dy * k == k * dx && dy * (k + 1) == (k + 1) * dx) by (nonlinear_arith)
                requires
                    dx == dy,
            ;
            vstd::arithmetic::div_mod::lemma_div_multiples_vanish_fancy(k, c, dy);
            vstd::arithmetic::div_mod::lemma_div_multiples_vanish_fancy(k + 1, c, dy);
        }
        lemma_unit_mul((k * dx + c) / dy);
        lemma_unit_mul(((k + 1) * dx + c) / dy);
    }
}

/// Cell k of the diagonal line from (0,0) to (d,d) is (k, k).
proof fn lemma_diagonal_point(d: int, k: int)
    requires
        0 <= k <= d,
    ensures
        line_point(0, 0, d, d, k) == (k, k),
{
    if d > 0 {
        let c = d - 1 - d / 2;
        assert(d * k == k * d) by (nonlinear_arith);
        vstd::arithmetic::div_mod::lemma_div_multiples_vanish_fancy(k, c, d);
        assert(1 * ((k * d + c) / d) == k);
        assert(k * 1 == k) by (nonlinear_arith);
    }
}

/// Law: drawing the diagonal line from (0,0) to (d,d) on a blank grid lights
/// exactly the d + 1 cells (0,0), (1,1), ..., (d,d): no gaps, no extras.
pub proof fn lemma_diagonal_line_cells(w: int, h: int, d: int)
    requires
        0 <= d < w,
        d < h,
    ensures
        forall|cx: int, cy: int|
            0 <= cx < w && 0 <= cy < h ==> #[trigger] crate::screen::grid_cell(
                with_line(crate::screen::blank_cells(w, h), w, h, 0, 0, d, d),
                w,
                cx,
                cy,
            ) == (cx == cy && cx <= d),
{
    let cells = crate::screen::blank_cells(w, h);
    assert forall|cx: int, cy: int| 0 <= cx < w && 0 <= cy < h implies #[trigger] crate::screen::grid_cell(
        with_line(cells, w, h, 0, 0, d, d),
        w,
        cx,
        cy,
    ) == (cx == cy && cx <= d) by {
        lemma_with_line_prefix_cell(cells, w, h, 0, 0, d, d, d + 1, cx, cy);
        crate::screen::lemma_cell_index_bound(cx, cy, w, h);
        if cx == cy && cx <= d {
            lemma_diagonal_point(d, cx);
        } else {
            assert forall|k: int| 0 <= k < d + 1 implies #[trigger] line_point(0, 0, d, d, k)
                != (cx, cy) by {
                lemma_diagonal_point(d, k);
            }
        }
    }
}

impl Screen {
    /// Draws the straight line between two cells with the all-octant integer
    /// midpoint algorithm, lighting every traversed cell that lies inside the
    /// grid and silently skipping the rest.
    #[verifier::rlimit(100)]
    #[verifier::spinoff_prover]
    pub fn draw_line(&mut self, start: (usize, usize), end: (usize, usize))
        requires
            old(self).wf(),
            start.0 <= isize::MAX as usize / 4,
            start.1 <= isize::MAX as usize / 4,
            end.0 <= isize::MAX as usize / 4,
            end.1 <= isize::MAX as usize / 4,
        ensures
            final(self).wf(),
            final(self).width == old(self).width,
            final(self).height == old(self).height,
            final(self).buffer == old(self).buffer,
            final(self).pixels@ == with_line(
                old(self).pixels@,
                old(self).width as int,
                old(self).height as int,
                start.0 as int,
                start.1 as int,
                end.0 as int,
                end.1 as int,
            ),
    {
        let (x0u, y0u) = start;
        let (x1u, y1u) = end;
        let x0 = x0u as isize;
        let y0 = y0u as isize;
        let x1 = x1u as isize;
        let y1 = y1u as isize;
        let ghost ax = x0u as int;
        let ghost ay = y0u as int;
        let ghost bx = x1u as int;
        let ghost by = y1u as int;
        let ghost w = old(self).width as int;
        let ghost h = old(self).height as int;

        let dx = if x1 >= x0 {
            x1 - x0
        } else {
            x0 - x1
        };
        let dy = if y1 >= y0 {
            y1 - y0
        } else {
            y0 - y1
        };
        let sx: isize = if x0u < x1u {
            1
        } else {
            -1
        };
        let sy: isize = if y0u < y1u {
            1
        } else {
            -1
        };
        let steps = if dx > dy {
            dx
        } else {
            dy
        };
        let mut err: isize = if dx > dy {
            ((dx as usize) / 2) as isize
        } else {
            -(((dy as usize) / 2) as isize)
        };

        let mut x = x0;
        let mut y = y0;
        let mut k: isize = 0;
        let ghost mut j: int = 0;

        while k <= steps
            invariant
                self.wf(),
                self.width == old(self).width,
                self.height == old(self).height,
                self.buffer == old(self).buffer,
                dx as int == dist(ax, bx),
                dy as int == dist(ay, by),
                steps as int == step_count(ax, ay, bx, by),
                0 <= k as int <= steps as int + 1,
                self.pixels@ == with_line_prefix(old(self).pixels@, w, h, ax, ay, bx, by, k as int),
                dx > dy && k <= steps ==> {
                    &&& x as int == (if ax < bx {
                        ax + k
                    } else {
                        ax - k
                    })
                    &&& y as int == (if ay < by {
                        ay + j
                    } else {
                        ay - j
                    })
                    &&& 0 <= j <= k as int
                    &&& err as int == dx as int / 2 + j * (dx as int) - k as int * (dy as int)
                    &&& 0 <= err as int <= dx as int - 1
                },
                dy >= dx && dy > 0 && k <= steps ==> {
                    &&& y as int == (if ay < by {
                        ay + k
                    } else {
                        ay - k
                    })
                    &&& x as int == (if ax < bx {
                        ax + j
                    } else {
                        ax - j
                    })
                    &&& 0 <= j <= k as int
                    &&& err as int == -(dy as int / 2) - j * (dy as int) + k as int * (dx as int)
                    &&& 1 - dy as int <= err as int <= 0
                },
                dx == 0 && dy == 0 && k <= steps ==> x == x0 && y == y0 && k == 0 && err == 0,
            decreases steps as int - k as int + 1,
        {
            proof {
                if dx > dy {
                    lemma_fundamental_div_mod_converse_div(
                        k as int * (dy as int) + (dx as int - 1 - dx as int / 2),
                        dx as int,
                        j,
                        dx as int - 1 - err as int,
                    );
                    if ay < by {
                        assert(line_point(ax, ay, bx, by, k as int).1 == ay + 1 * j);
                    } else {
                        assert(line_point(ax, ay, bx, by, k as int).1 == ay + (-1) * j);
                    }
                } else if dy > 0 {
                    lemma_fundamental_div_mod_converse_div(
                        k as int * (dx as int) + (dy as int - 1 - dy as int / 2),
                        dy as int,
                        j,
                        dy as int - 1 + err as int,
                    );
                    if ax < bx {
                        assert(line_point(ax, ay, bx, by, k as int).0 == ax + 1 * j);
                    } else {
                        assert(line_point(ax, ay, bx, by, k as int).0 == ax + (-1) * j);
                    }
                }
                assert(line_point(ax, ay, bx, by, k as int) == (x as int, y as int));
            }
            if x >= 0 && y >= 0 {
                self.set(x as usize, y as usize, true);
            }
            proof {
                assert(self.pixels@ == with_line_prefix(
                    old(self).pixels@,
                    w,
                    h,
                    ax,
                    ay,
                    bx,
                    by,
                    k as int + 1,
                ));
            }
            let e2 = err;
            if e2 > -dx {
                err = err - dy;
                x = x + sx;
                proof {
                    if !(dx > dy) {
                        j = j + 1;
                        assert(j * (dy as int) == (j - 1) * (dy as int) + dy as int)
                            by (nonlinear_arith);
                    }
                }
            }
            if e2 < dy {
                err = err + dx;
                y = y + sy;
                proof {
                    if dx > dy {
                        j = j + 1;
                        assert(j * (dx as int) == (j - 1) * (dx as int) + dx as int)
                            by (nonlinear_arith);
                    }
                }
            }
            proof {
                assert((k as int + 1) * (dy as int) == k as int * (dy as int) + dy as int)
                    by (nonlinear_arith);
                assert((k as int + 1) * (dx as int) == k as int * (dx as int) + dx as int)
                    by (nonlinear_arith);
            }
            k = k + 1;
        }
    }
}

} // verus!

//! The pixel grid: a fixed-size two-dimensional boolean buffer stored
//! row-major, with silent clipping of out-of-bounds writes, and a text
//! serializer that turns the grid into one line of characters per row.
use vstd::prelude::*;
use vstd::string::StringExecFns;

verus! {

/// A grid of `width * height` boolean cells plus the text buffer that
/// `build` fills from the cells. Cell `(x, y)` is lit when the pixel at
/// column `x` of row `y` should show as `.` rather than a space.
pub struct Screen {
    pub width: usize,
    pub height: usize,
    pub pixels: Vec<bool>,
    pub buffer: String,
}

/// The character a single cell serializes to.
pub open spec fn cell_char(lit: bool) -> char {
    if lit { '.' } else { ' ' }
}

/// The serialized text of row `y`: `w` cell characters then a newline.
pub open spec fn row_text(cells: Seq<bool>, w: int, y: int) -> Seq<char> {
    Seq::new(w as nat, |x: int| cell_char(cells[y * w + x])) + seq!['\n']
}

/// The serialized text of the first `h` rows, in increasing row order.
pub open spec fn frame_text(cells: Seq<bool>, w: int, h: int) -> Seq<char>
    decreases h,
{
    if h <= 0 {
        Seq::empty()
    } else {
        frame_text(cells, w, h - 1) + row_text(cells, w, h - 1)
    }
}

/// The cell at column `cx` of row `cy` of a row-major grid of width `w`.
pub open spec fn grid_cell(cells: Seq<bool>, w: int, cx: int, cy: int) -> bool {
    cells[cy * w + cx]
}

/// The character at column `cx` of row `cy` of a serialized frame; column
/// `w` is the newline that ends the row.
pub open spec fn frame_char(cells: Seq<bool>, w: int, h: int, cx: int, cy: int) -> char {
    frame_text(cells, w, h)[cy * (w + 1) + cx]
}

/// A grid of `w * h` cells, none lit.
pub open spec fn blank_cells(w: int, h: int) -> Seq<bool> {
    Seq::new((w * h) as nat, |i: int| false)
}

/// Row-major cell indices stay inside the grid.
pub proof fn lemma_cell_index_bound(x: int, y: int, w: int, h: int)
    requires
        0 <= x < w,
        0 <= y < h,
    ensures
        0 <= x + y * w < w * h,
{
    assert(x + y * w < w * h) by (nonlinear_arith)
        requires
            0 <= x < w,
            0 <= y < h,
    ;
    assert(0 <= y * w) by (nonlinear_arith)
        requires
            0 <= y,
            0 <= w,
    ;
}

/// Distinct in-bounds coordinates have distinct row-major indices.
pub proof fn lemma_cell_index_injective(x1: int, y1: int, x2: int, y2: int, w: int, h: int)
    requires
        0 <= x1 < w,
        0 <= y1 < h,
        0 <= x2 < w,
        0 <= y2 < h,
        x1 + y1 * w == x2 + y2 * w,
    ensures
        x1 == x2,
        y1 == y2,
{
    vstd::arithmetic::div_mod::lemma_fundamental_div_mod_converse_div(x1 + y1 * w, w, y1, x1);
    vstd::arithmetic::div_mod::lemma_fundamental_div_mod_converse_div(x2 + y2 * w, w, y2, x2);
}

/// The serialized frame holds `h` rows of `w + 1` characters each.
pub proof fn lemma_frame_text_len(cells: Seq<bool>, w: int, h: int)
    requires
        w >= 0,
        h >= 0,
    ensures
        frame_text(cells, w, h).len() == h * (w + 1),
    decreases h,
{
    if h > 0 {
        lemma_frame_text_len(cells, w, h - 1);
        assert(h * (w + 1) == (h - 1) * (w + 1) + (w + 1)) by (nonlinear_arith);
    } else {
        assert(h * (w + 1) == 0) by (nonlinear_arith)
            requires
                h == 0,
        ;
    }
}

/// The character at column `cx` of row `cy` of the serialized frame: the
/// newline at the row's end when `cx == w`, the cell's character otherwise.
pub proof fn lemma_frame_text_char(cells: Seq<bool>, w: int, h: int, cx: int, cy: int)
    requires
        w >= 0,
        0 <= cx <= w,
        0 <= cy < h,
    ensures
        frame_text(cells, w, h).len() == h * (w + 1),
        frame_text(cells, w, h)[cy * (w + 1) + cx] == (if cx == w {
            '\n'
        } else {
            cell_char(cells[cy * w + cx])
        }),
    decreases h,
{
    lemma_frame_text_len(cells, w, h);
    if cy == h - 1 {
        lemma_frame_text_len(cells, w, h - 1);
        assert(cy * (w + 1) + cx == (h - 1) * (w + 1) + cx);
        if cx < w {
            assert(row_text(cells, w, cy)[cx] == cell_char(cells[cy * w + cx]));
        } else {
            assert(row_text(cells, w, cy)[w] == '\n');
        }
    } else {
        lemma_frame_text_char(cells, w, h - 1, cx, cy);
        assert(cy * (w + 1) + cx < (h - 1) * (w + 1)) by (nonlinear_arith)
            requires
                w >= 0,
                0 <= cx <= w,
                0 <= cy < h - 1,
        ;
    }
}

/// Law: a cleared grid serializes to `h` rows of `w` spaces, each row ended
/// by a newline.
pub proof fn lemma_blank_frame_text(w: int, h: int)
    requires
        w >= 0,
        h >= 0,
    ensures
        frame_text(blank_cells(w, h), w, h).len() == h * (w + 1),
        forall|cx: int, cy: int|
            0 <= cx <= w && 0 <= cy < h ==> #[trigger] frame_char(blank_cells(w, h), w, h, cx, cy)
                == (if cx == w {
                '\n'
            } else {
                ' '
            }),
{
    lemma_frame_text_len(blank_cells(w, h), w, h);
    assert forall|cx: int, cy: int| 0 <= cx <= w && 0 <= cy < h implies #[trigger] frame_char(
        blank_cells(w, h),
        w,
        h,
        cx,
        cy,
    ) == (if cx == w {
        '\n'
    } else {
        ' '
    }) by {
        lemma_frame_text_char(blank_cells(w, h), w, h, cx, cy);
        if cx < w {
            lemma_cell_index_bound(cx, cy, w, h);
        }
    }
}

/// Law: on an otherwise blank grid, lighting the in-bounds cell (x, y) and
/// serializing shows `.` at column x of row y, a space at every other cell,
/// and a newline at the end of every row.
pub proof fn lemma_single_cell_frame_text(w: int, h: int, x: int, y: int)
    requires
        0 <= x < w,
        0 <= y < h,
    ensures
        ({
            let cells = blank_cells(w, h).update(x + y * w, true);
            &&& frame_text(cells, w, h).len() == h * (w + 1)
            &&& frame_char(cells, w, h, x, y) == '.'
            &&& forall|cx: int, cy: int|
                0 <= cx < w && 0 <= cy < h && !(cx == x && cy == y) ==> #[trigger] frame_char(
                    cells,
                    w,
                    h,
                    cx,
                    cy,
                ) == ' '
            &&& forall|cy: int| 0 <= cy < h ==> #[trigger] frame_char(cells, w, h, w, cy) == '\n'
        }),
{
    let cells = blank_cells(w, h).update(x + y * w, true);
    lemma_cell_index_bound(x, y, w, h);
    lemma_frame_text_len(cells, w, h);
    lemma_frame_text_char(cells, w, h, x, y);
    assert forall|cx: int, cy: int|
        0 <= cx < w && 0 <= cy < h && !(cx == x && cy == y) implies #[trigger] frame_char(
        cells,
        w,
        h,
        cx,
        cy,
    ) == ' ' by {
        lemma_frame_text_char(cells, w, h, cx, cy);
        lemma_cell_index_bound(cx, cy, w, h);
        if cx + cy * w == x + y * w {
            lemma_cell_index_injective(cx, cy, x, y, w, h);
        }
    }
    assert forall|cy: int| 0 <= cy < h implies #[trigger] frame_char(cells, w, h, w, cy)
        == '\n' by {
        lemma_frame_text_char(cells, w, h, w, cy);
    }
}

impl Screen {
    /// Dimensions match the cell storage, and each dimension is small enough
    /// that the rasterizer's signed coordinate arithmetic cannot overflow.
    pub open spec fn wf(self) -> bool {
        &&& self.pixels@.len() == self.width * self.height
        &&& self.width <= isize::MAX as int / 4
        &&& self.height <= isize::MAX as int / 4
    }

    pub fn new(width: usize, height: usize) -> (s: Screen)
        requires
            width * height <= usize::MAX,
            width <= isize::MAX as usize / 4,
            height <= isize::MAX as usize / 4,
        ensures
            s.wf(),
            s.width == width,
            s.height == height,
            s.pixels@ == blank_cells(width as int, height as int),
            s.buffer@ == Seq::<char>::empty(),
    {
        let n = width * height;
        let mut pixels: Vec<bool> = Vec::new();
        let mut i: usize = 0;
        while i < n
            invariant
                i <= n,
                pixels@.len() == i,
                forall|j: int| 0 <= j < i ==> !pixels@[j],
            decreases n - i,
        {
            pixels.push(false);
            i = i + 1;
        }
        proof {
            assert(pixels@ =~= blank_cells(width as int, height as int));
        }
        Screen { width, height, pixels, buffer: String::new() }
    }

    /// Sets the cell at `(x, y)` when it is in bounds; out-of-bounds writes
    /// are silently ignored so that clipped geometry never faults.
    pub fn set(&mut self, x: usize, y: usize, value: bool)
        requires
            old(self).wf(),
        ensures
            final(self).wf(),
            final(self).width == old(self).width,
            final(self).height == old(self).height,
            final(self).buffer == old(self).buffer,
            x < old(self).width && y < old(self).height ==> final(self).pixels@ == old(
                self,
            ).pixels@.update(x + y * old(self).width, value),
            !(x < old(self).width && y < old(self).height) ==> *final(self) == *old(self),
    {
        if x < self.width && y < self.height {
            let n = self.pixels.len();
            proof {
                lemma_cell_index_bound(x as int, y as int, self.width as int, self.height as int);
            }
            let index = x + y * self.width;
            self.pixels[index] = value;
        }
    }

    /// Sets every cell to unlit.
    pub fn clear(&mut self)
        requires
            old(self).wf(),
        ensures
            final(self).wf(),
            final(self).width == old(self).width,
            final(self).height == old(self).height,
            final(self).buffer == old(self).buffer,
            final(self).pixels@ == blank_cells(old(self).width as int, old(self).height as int),
    {
        let n = self.pixels.len();
        let mut i: usize = 0;
        while i < n
            invariant
                i <= n,
                n == self.pixels@.len(),
                self.wf(),
                self.width == old(self).width,
                self.height == old(self).height,
                self.buffer == old(self).buffer,
                forall|j: int| 0 <= j < i ==> !self.pixels@[j],
            decreases n - i,
        {
            self.pixels[i] = false;
            i = i + 1;
        }
        proof {
            assert(self.pixels@ =~= blank_cells(old(self).width as int, old(self).height as int));
        }
    }

    /// Rebuilds the text buffer from the cells: `height` rows of `width`
    /// characters each (`.` for lit, space for unlit), each row ending in a
    /// newline, rows in increasing `y` order.
    pub fn build(&mut self)
        requires
            old(self).wf(),
        ensures
            final(self).wf(),
            final(self).width == old(self).width,
            final(self).height == old(self).height,
            final(self).pixels == old(self).pixels,
            final(self).buffer@ == frame_text(
                old(self).pixels@,
                old(self).width as int,
                old(self).height as int,
            ),
    {
        self.buffer = String::new();
        let mut y: usize = 0;
        while y < self.height
            invariant
                y <= self.height,
                self.wf(),
                self.width == old(self).width,
                self.height == old(self).height,
                self.pixels == old(self).pixels,
                self.buffer@ == frame_text(self.pixels@, self.width as int, y as int),
            decreases self.height - y,
        {
            let mut x: usize = 0;
            while x < self.width
                invariant
                    y < self.height,
                    x <= self.width,
                    self.wf(),
                    self.width == old(self).width,
                    self.height == old(self).height,
                    self.pixels == old(self).pixels,
                    self.buffer@ == frame_text(self.pixels@, self.width as int, y as int)
                        + Seq::new(x as nat, |i: int| cell_char(self.pixels@[y * self.width + i])),
                decreases self.width - x,
            {
                let n = self.pixels.len();
                proof {
                    lemma_cell_index_bound(
                        x as int,
                        y as int,
                        self.width as int,
                        self.height as int,
                    );
                    reveal_strlit(".");
                    reveal_strlit(" ");
                }
                let index = x + y * self.width;
                let lit = self.pixels[index];
                self.buffer.append(if lit { "." } else { " " });
                proof {
                    assert(self.buffer@ =~= frame_text(self.pixels@, self.width as int, y as int)
                        + Seq::new(
                        (x + 1) as nat,
                        |i: int| cell_char(self.pixels@[y * self.width + i]),
                    ));
                }
                x = x + 1;
            }
            proof {
                reveal_strlit("\n");
            }
            self.buffer.append("\n");
            proof {
                assert(self.buffer@ =~= frame_text(
                    self.pixels@,
                    self.width as int,
                    (y + 1) as int,
                ));
            }
            y = y + 1;
        }
    }
}

} // verus!

//! Bitmaps: rectangles of pixels that are drawn or skipped, as glyphs and
//! filled rectangles are put on the frame buffer.
use vstd::prelude::*;

use crate::graphics::Color;

verus! {

/// A pixel of a `Bitmap`: skipped unless `draw`, else painted in `color`.
#[derive(Clone, Copy, PartialEq, Eq, Debug)]
pub struct Pixel {
    pub draw: bool,
    pub color: Color,
}

/// The color a border is given when borders are forced on every bitmap.
pub const DEBUG_BORDER_COLOR: Color = [255, 255, 255];

impl Pixel {
    /// A pixel that is not drawn.
    pub fn empty() -> (r: Pixel)
        ensures
            r == (Pixel { draw: false, color: [0u8, 0u8, 0u8] }),
    {
        Pixel { draw: false, color: [0, 0, 0] }
    }

    pub fn new(draw: bool, color: Color) -> (r: Pixel)
        ensures
            r == (Pixel { draw, color }),
    {
        Pixel { draw, color }
    }

    /// One pixel per byte, drawn where the byte is 1, all in `color`.
    pub fn from_u8_vec(v: Vec<u8>, color: Color) -> (r: Vec<Pixel>)
        ensures
            r@.len() == v@.len(),
            forall|i: int| 0 <= i < v@.len() ==> #[trigger] r@[i] == (Pixel { draw: v@[i] == 1, color }),
    {
        let mut out: Vec<Pixel> = Vec::new();
        let n = v.len();
        let mut i: usize = 0;
        while i < n
            invariant
                n == v@.len(),
                i <= n,
                out@.len() == i,
                forall|j: int| 0 <= j < i ==> #[trigger] out@[j] == (Pixel { draw: v@[j] == 1, color }),
            decreases n - i,
        {
            out.push(Pixel::new(v[i] == 1, color));
            i = i + 1;
        }
        out
    }
}

/// A `rows` by `cols` rectangle of pixels, row by row, with an optional
/// border color.
pub struct Bitmap {
    pub rows: usize,
    pub cols: usize,
    pub bmp: Vec<Pixel>,
    pub border: Option<Color>,
}

impl Bitmap {
    /// There is one pixel per cell.
    pub open spec fn wf(&self) -> bool {
        self.rows * self.cols == self.bmp@.len()
    }

    /// Whether cell `(y, x)` lies on the edge.
    pub open spec fn on_edge(&self, y: int, x: int) -> bool {
        y == 0 || y == self.rows - 1 || x == 0 || x == self.cols - 1
    }

    pub fn new(rows: usize, cols: usize, bmp: Vec<Pixel>, border: Option<Color>) -> (r: Bitmap)
        ensures
            r.rows == rows,
            r.cols == cols,
            r.bmp@ == bmp@,
            r.border == border,
    {
        Bitmap { rows, cols, bmp, border }
    }

    /// `other` scaled up by `factor`: each pixel becomes a `factor` by
    /// `factor` square. The result has no border.
    pub fn scale(other: &Bitmap, factor: usize) -> (r: Bitmap)
        requires
            other.wf(),
            factor > 0,
            other.rows * factor <= usize::MAX,
            other.cols * factor <= usize::MAX,
            other.rows * factor * (other.cols * factor) <= usize::MAX,
        ensures
            r.wf(),
            r.rows == other.rows * factor,
            r.cols == other.cols * factor,
            r.border is None,
            forall|y: int, x: int|
                0 <= y < r.rows && 0 <= x < r.cols ==> #[trigger] r.bmp@[y * r.cols + x] == other.bmp@[(y / factor as int)
                    * other.cols + x / factor as int],
    {
        proof {
            vstd::arithmetic::mul::lemma_mul_inequality(1, factor as int, other.rows as int);
            vstd::arithmetic::mul::lemma_mul_inequality(1, factor as int, other.cols as int);
            lemma_product_bound(other.rows as int * factor as int, other.cols as int * factor as int);
        }
        let new_rows = other.rows * factor;
        let new_cols = other.cols * factor;
        let _len = other.bmp.len();
        let mut scaled: Vec<Pixel> = Vec::new();
        let mut y: usize = 0;
        while y < new_rows
            invariant
                other.wf(),
                factor > 0,
                new_rows == other.rows * factor,
                new_cols == other.cols * factor,
                new_rows * new_cols <= usize::MAX,
                other.rows * other.cols <= usize::MAX,
                y <= new_rows,
                scaled@.len() == y * new_cols,
                forall|yy: int, xx: int|
                    0 <= yy < y && 0 <= xx < new_cols ==> #[trigger] scaled@[yy * new_cols + xx] == other.bmp@[(yy
                        / factor as int) * other.cols + xx / factor as int],
            decreases new_rows - y,
        {
            let mut x: usize = 0;
            proof {
                vstd::arithmetic::mul::lemma_mul_inequality(y as int + 1, new_rows as int, new_cols as int);
                vstd::arithmetic::mul::lemma_mul_is_distributive_add_other_way(new_cols as int, y as int, 1);
            }
            while x < new_cols
                invariant
                    other.wf(),
                    factor > 0,
                    new_rows == other.rows * factor,
                    new_cols == other.cols * factor,
                    y < new_rows,
                    other.rows * other.cols <= usize::MAX,
                    (y + 1) * new_cols <= usize::MAX,
                    (y + 1) * new_cols == y * new_cols + new_cols,
                    x <= new_cols,
                    scaled@.len() == y * new_cols + x,
                    forall|yy: int, xx: int|
                        0 <= yy < y && 0 <= xx < new_cols ==> #[trigger] scaled@[yy * new_cols + xx] == other.bmp@[(yy
                            / factor as int) * other.cols + xx / factor as int],
                    forall|xx: int|
                        0 <= xx < x ==> #[trigger] scaled@[y * new_cols + xx] == other.bmp@[(y as int / factor as int)
                            * other.cols + xx / factor as int],
                decreases new_cols - x,
            {
                let sy = y / factor;
                let sx = x / factor;
                proof {
                    lemma_source_index(y as int, x as int, factor as int, other.rows as int, other.cols as int);
                }
                let p = other.bmp[sy * other.cols + sx];
                let ghost prev = scaled@;
                scaled.push(p);
                proof {
                    assert forall|yy: int, xx: int| 0 <= yy < y && 0 <= xx < new_cols implies #[trigger] scaled@[yy * new_cols + xx]
                        == prev[yy * new_cols + xx] by {
                        lemma_cell_index(yy, xx, y as int, new_cols as int);
                    }
                }
                x = x + 1;
            }
            proof {
                assert forall|yy: int, xx: int|
                    0 <= yy < y + 1 && 0 <= xx < new_cols implies #[trigger] scaled@[yy * new_cols + xx]
                    == other.bmp@[(yy / factor as int) * other.cols + xx / factor as int] by {
                    if yy == y {
                    }
                }
            }
            y = y + 1;
        }
        Bitmap { rows: new_rows, cols: new_cols, bmp: scaled, border: None }
    }

    /// Paint every pixel on the edge in `color`, and draw it.
    pub fn set_border(&mut self, color: Color)
        requires
            old(self).wf(),
        ensures
            final(self).wf(),
            final(self).rows == old(self).rows,
            final(self).cols == old(self).cols,
            final(self).border == old(self).border,
            forall|y: int, x: int|
                0 <= y < old(self).rows && 0 <= x < old(self).cols ==> #[trigger] final(self).bmp@[y * old(self).cols + x]
                    == if old(self).on_edge(y, x) {
                    Pixel { draw: true, color }
                } else {
                    old(self).bmp@[y * old(self).cols + x]
                },
    {
        let rows = self.rows;
        let cols = self.cols;
        let _len = self.bmp.len();
        let mut y: usize = 0;
        while y < rows
            invariant
                rows * cols <= usize::MAX,
                rows == self.rows,
                cols == self.cols,
                rows == old(self).rows,
                cols == old(self).cols,
                self.border == old(self).border,
                self.wf(),
                y <= rows,
                forall|yy: int, xx: int|
                    0 <= yy < rows && 0 <= xx < cols ==> #[trigger] self.bmp@[yy * cols + xx] == if yy < y
                        && old(self).on_edge(yy, xx) {
                        Pixel { draw: true, color }
                    } else {
                        old(self).bmp@[yy * cols + xx]
                    },
            decreases rows - y,
        {
            let mut x: usize = 0;
            while x < cols
                invariant
                    rows * cols <= usize::MAX,
                    rows == self.rows,
                    cols == self.cols,
                    rows == old(self).rows,
                    cols == old(self).cols,
                    self.border == old(self).border,
                    self.wf(),
                    y < rows,
                    x <= cols,
                    forall|yy: int, xx: int|
                        0 <= yy < rows && 0 <= xx < cols ==> #[trigger] self.bmp@[yy * cols + xx] == if (yy < y
                            || (yy == y && xx < x)) && old(self).on_edge(yy, xx) {
                            Pixel { draw: true, color }
                        } else {
                            old(self).bmp@[yy * cols + xx]
                        },
                decreases cols - x,
            {
                proof {
                    lemma_cell_index(y as int, x as int, rows as int, cols as int);
                }
                let ghost before = self.bmp@;
                if y == 0 || y == rows - 1 || x == 0 || x == cols - 1 {
                    let i = y * cols + x;
                    self.bmp.set(i, Pixel { draw: true, color });
                }
                proof {
                    assert forall|yy: int, xx: int|
                        0 <= yy < rows && 0 <= xx < cols implies #[trigger] self.bmp@[yy * cols + xx] == if (yy < y
                            || (yy == y && xx < x + 1)) && old(self).on_edge(yy, xx) {
                            Pixel { draw: true, color }
                        } else {
                            old(self).bmp@[yy * cols + xx]
                        } by {
                        lemma_cell_index(yy, xx, rows as int, cols as int);
                        if yy * cols + xx == y * cols + x {
                            lemma_cell_unique(yy, xx, y as int, x as int, cols as int);
                        } else {
                            assert(self.bmp@[yy * cols + xx] == before[yy * cols + xx]);
                            if yy == y && xx == x {
                            }
                        }
                    }
                }
                x = x + 1;
            }
            y = y + 1;
        }
    }

    /// The frame buffer writes that draw the bitmap with its top left
    /// corner at `start`, on a buffer of `stride` pixels per line and four
    /// bytes per pixel: the border (or, with `debug_border`, a white one
    /// where none is set) is painted first, then each drawn pixel gives
    /// one write `(byte offset, color)`, row by row.
    pub fn framebuffer_writes(&mut self, start: (usize, usize), stride: usize, debug_border: bool) -> (r: Vec<(
        usize,
        Color,
    )>)
        requires
            old(self).wf(),
            start.0 + old(self).cols <= usize::MAX,
            start.1 + old(self).rows <= usize::MAX,
            (start.1 + old(self).rows) * stride + start.0 + old(self).cols <= usize::MAX / 4,
        ensures
            final(self).wf(),
            final(self).rows == old(self).rows,
            final(self).cols == old(self).cols,
            final(self).border == if old(self).border is None && debug_border {
                Some(DEBUG_BORDER_COLOR)
            } else {
                old(self).border
            },
            r@ == final(self).writes(start, stride),
    {
        if self.border.is_none() && debug_border {
            self.border = Some(DEBUG_BORDER_COLOR);
        }
        if let Some(color) = self.border {
            self.set_border(color);
        }
        let rows = self.rows;
        let cols = self.cols;
        let _len = self.bmp.len();
        let mut out: Vec<(usize, Color)> = Vec::new();
        let mut y: usize = 0;
        while y < rows
            invariant
                rows * cols <= usize::MAX,
                rows == self.rows,
                cols == self.cols,
                self.wf(),
                y <= rows,
                (start.1 + rows) * stride + start.0 + cols <= usize::MAX / 4,
                start.0 + cols <= usize::MAX,
                start.1 + rows <= usize::MAX,
                out@ == self.writes_rows(start, stride, y as int),
            decreases rows - y,
        {
            let mut x: usize = 0;
            let ghost base = out@;
            while x < cols
                invariant
                    rows * cols <= usize::MAX,
                    rows == self.rows,
                    cols == self.cols,
                    self.wf(),
                    y < rows,
                    x <= cols,
                    (start.1 + rows) * stride + start.0 + cols <= usize::MAX / 4,
                    start.0 + cols <= usize::MAX,
                    start.1 + rows <= usize::MAX,
                    base == self.writes_rows(start, stride, y as int),
                    out@ == base + self.writes_row(start, stride, y as int, x as int),
                decreases cols - x,
            {
                proof {
                    lemma_cell_index(y as int, x as int, rows as int, cols as int);
                    lemma_offset_bound(y as int, x as int, start, stride as int, rows as int, cols as int);
                }
                let px = self.bmp[y * cols + x];
                if px.draw {
                    let idx = (y + start.1) * stride + (x + start.0);
                    out.push((4 * idx, px.color));
                }
                proof {
                    assert(out@ =~= base + self.writes_row(start, stride, y as int, x + 1));
                }
                x = x + 1;
            }
            y = y + 1;
        }
        out
    }

    /// The writes of cells `0..x` of row `y`.
    pub open spec fn writes_row(&self, start: (usize, usize), stride: usize, y: int, x: int) -> Seq<(usize, Color)>
        decreases x,
    {
        if x <= 0 {
            Seq::empty()
        } else {
            let prev = self.writes_row(start, stride, y, x - 1);
            let p = self.bmp@[y * self.cols + x - 1];
            if p.draw {
                prev.push(((4 * ((y + start.1) * stride + (x - 1 + start.0))) as usize, p.color))
            } else {
                prev
            }
        }
    }

    /// The writes of rows `0..y`.
    pub open spec fn writes_rows(&self, start: (usize, usize), stride: usize, y: int) -> Seq<(usize, Color)>
        decreases y,
    {
        if y <= 0 {
            Seq::empty()
        } else {
            self.writes_rows(start, stride, y - 1) + self.writes_row(start, stride, y - 1, self.cols as int)
        }
    }

    /// All the writes of the bitmap.
    pub open spec fn writes(&self, start: (usize, usize), stride: usize) -> Seq<(usize, Color)> {
        self.writes_rows(start, stride, self.rows as int)
    }
}

proof fn lemma_product_bound(a: int, b: int)
    requires
        0 <= a,
        0 <= b,
    ensures
        0 <= a * b,
{
    vstd::arithmetic::mul::lemma_mul_nonnegative(a, b);
}

proof fn lemma_cell_index(y: int, x: int, rows: int, cols: int)
    requires
        0 <= y < rows,
        0 <= x < cols,
    ensures
        0 <= y * cols + x < rows * cols,
{
    assert(y * cols + x < rows * cols) by (nonlinear_arith)
        requires
            0 <= y < rows,
            0 <= x < cols,
    ;
    assert(0 <= y * cols) by (nonlinear_arith)
        requires
            0 <= y,
            0 <= cols,
    ;
}

proof fn lemma_cell_unique(yy: int, xx: int, y: int, x: int, cols: int)
    requires
        0 <= xx < cols,
        0 <= x < cols,
        0 <= yy,
        0 <= y,
        yy * cols + xx == y * cols + x,
    ensures
        yy == y,
        xx == x,
{
    assert(yy == y) by (nonlinear_arith)
        requires
            0 <= xx < cols,
            0 <= x < cols,
            0 <= yy,
            0 <= y,
            yy * cols + xx == y * cols + x,
    ;
}

proof fn lemma_source_index(y: int, x: int, factor: int, rows: int, cols: int)
    requires
        factor > 0,
        0 <= y < rows * factor,
        0 <= x < cols * factor,
    ensures
        0 <= (y / factor) * cols + x / factor < rows * cols,
        y / factor < rows,
        x / factor < cols,
{
    assert(y / factor < rows) by (nonlinear_arith)
        requires
            factor > 0,
            0 <= y < rows * factor,
    ;
    assert(x / factor < cols) by (nonlinear_arith)
        requires
            factor > 0,
            0 <= x < cols * factor,
    ;
    assert(0 <= y / factor) by (nonlinear_arith)
        requires
            factor > 0,
            0 <= y,
    ;
    assert(0 <= x / factor) by (nonlinear_arith)
        requires
            factor > 0,
            0 <= x,
    ;
    lemma_cell_index(y / factor, x / factor, rows, cols);
}

proof fn lemma_offset_bound(y: int, x: int, start: (usize, usize), stride: int, rows: int, cols: int)
    requires
        0 <= y < rows,
        0 <= x < cols,
        0 <= stride,
        (start.1 + rows) * stride + start.0 + cols <= usize::MAX / 4,
    ensures
        0 <= (y + start.1) * stride + (x + start.0),
        4 * ((y + start.1) * stride + (x + start.0)) <= usize::MAX,
{
    assert((y + start.1) * stride <= (start.1 + rows) * stride) by (nonlinear_arith)
        requires
            0 <= y < rows,
            0 <= stride,
            0 <= start.1,
    ;
    assert(0 <= (y + start.1) * stride) by (nonlinear_arith)
        requires
            0 <= y,
            0 <= stride,
            0 <= start.1,
    ;
}

} // verus!

//! A multi-line text field with a cursor and a viewport, optionally
//! editable, that wraps or scrolls lines wider than it.
use vstd::prelude::*;

use crate::event::{push_char, strings_view, Key, ScanCode, UIResult, BACKSPACE};
use crate::graphics::{ColorType, DrawOp, FontSize, Graphics, Surface, Theme};
use crate::wrap::{lemma_tiles_within, lemma_wrap_tiles, ranges_view, tiles, wrap_line, wrap_of};

verus! {

/// How many characters of context to keep around the cursor when scrolling.
pub const SCROLLOFF: usize = 3;

/// How thick the cursor is, in pixels.
pub const CURSOR_WEIGHT: usize = 3;

/// What to do with lines wider than the viewport.
#[derive(Clone, Copy, PartialEq, Eq, Structural, Debug)]
pub enum XOverflowBehavior {
    Wrap,
    Scroll,
}

/// Splits text into lines at every `'\n'` and every `'\r'`.
pub open spec fn split_lines(s: Seq<char>) -> Seq<Seq<char>>
    decreases s.len(),
{
    if s.len() == 0 {
        seq![Seq::<char>::empty()]
    } else {
        let init = split_lines(s.drop_last());
        let c = s.last();
        if c == '\n' || c == '\r' {
            init.push(Seq::<char>::empty())
        } else {
            init.update(init.len() - 1, init.last().push(c))
        }
    }
}

/// Joins lines with `'\n'` between them.
pub open spec fn join_lines(lines: Seq<Seq<char>>) -> Seq<char>
    decreases lines.len(),
{
    if lines.len() == 0 {
        Seq::<char>::empty()
    } else if lines.len() == 1 {
        lines[0]
    } else {
        join_lines(lines.drop_last()).push('\n') + lines.last()
    }
}

proof fn lemma_split_lines_nonempty(s: Seq<char>)
    ensures
        split_lines(s).len() >= 1,
    decreases s.len(),
{
    if s.len() > 0 {
        lemma_split_lines_nonempty(s.drop_last());
    }
}

proof fn lemma_join_extend_last(lines: Seq<Seq<char>>, c: char)
    requires
        lines.len() >= 1,
    ensures
        join_lines(lines.update(lines.len() - 1, lines.last().push(c))) == join_lines(lines).push(c),
{
    let u = lines.update(lines.len() - 1, lines.last().push(c));
    if lines.len() > 1 {
        assert(u.drop_last() =~= lines.drop_last());
        assert(join_lines(u) =~= join_lines(lines).push(c));
    }
}

/// Splitting text without `'\r'` into lines and joining them again gives
/// the text back.
pub proof fn lemma_split_join(s: Seq<char>)
    requires
        forall|i: int| 0 <= i < s.len() ==> s[i] != '\r',
    ensures
        join_lines(split_lines(s)) == s,
    decreases s.len(),
{
    if s.len() > 0 {
        let init = s.drop_last();
        lemma_split_join(init);
        lemma_split_lines_nonempty(init);
        let l = split_lines(init);
        if s.last() == '\n' {
            let p = l.push(Seq::<char>::empty());
            assert(p.drop_last() =~= l);
            assert(join_lines(p) =~= s);
        } else {
            lemma_join_extend_last(l, s.last());
            assert(init.push(s.last()) =~= s);
        }
    }
}

/// Every length fits in a `usize`.
pub open spec fn lines_fit(lines: Seq<Seq<char>>) -> bool {
    &&& lines.len() <= usize::MAX
    &&& forall|i: int| 0 <= i < lines.len() ==> #[trigger] lines[i].len() <= usize::MAX
}

/// The mathematical state of a `TextArea`.
pub struct TextAreaView {
    pub id: Seq<char>,
    pub subscriptions: Seq<Seq<char>>,
    pub lines: Seq<Seq<char>>,
    pub edit: bool,
    /// Top left corner, in pixels.
    pub start: (usize, usize),
    /// Width and height, in pixels.
    pub dims_px: (usize, usize),
    pub font_size: FontSize,
    pub overflow: XOverflowBehavior,
    /// `(column, row)`.
    pub cursor: (usize, usize),
    /// `(column, row)` of the first character shown.
    pub viewport: (usize, usize),
    /// Width and height of a character cell in pixels, as of the last draw.
    pub cell: (usize, usize),
    /// Columns and rows of characters that fit, as of the last draw.
    pub grid: (usize, usize),
}

impl TextAreaView {
    /// The cursor is on a line, at most one past its last character, and
    /// the area fits on a surface addressed by `usize`.
    pub open spec fn wf(&self) -> bool {
        &&& lines_fit(self.lines)
        &&& self.lines.len() >= 1
        &&& self.cursor.1 < self.lines.len()
        &&& self.cursor.0 <= self.lines[self.cursor.1 as int].len()
        &&& self.start.0 + self.dims_px.0 <= usize::MAX
        &&& self.start.1 + self.dims_px.1 <= usize::MAX
    }

    /// The same state with other lines and another cursor.
    pub open spec fn with_text(self, lines: Seq<Seq<char>>, cursor: (usize, usize)) -> TextAreaView {
        TextAreaView { lines, cursor, ..self }
    }
}

impl TextAreaView {
    /// The lines and the cursor after the key `k`, and whether the key
    /// changed anything (and so asks for a redraw).
    pub open spec fn key_edit(self, k: Key) -> (Seq<Seq<char>>, (usize, usize), bool) {
        let (c, r) = self.cursor;
        let lines = self.lines;
        let line = lines[r as int];
        match k {
            Key::Printable(ch) => {
                if ch == BACKSPACE {
                    if c > 0 {
                        (lines.update(r as int, line.remove(c - 1)), ((c - 1) as usize, r), true)
                    } else if r > 0 {
                        let prev = lines[r - 1];
                        (
                            lines.update(r - 1, prev + line).remove(r as int),
                            (prev.len() as usize, (r - 1) as usize),
                            true,
                        )
                    } else {
                        (lines, self.cursor, false)
                    }
                } else if ch == '\n' || ch == '\r' {
                    (
                        lines.update(r as int, line.take(c as int)).insert(r + 1, line.skip(c as int)),
                        (0usize, (r + 1) as usize),
                        true,
                    )
                } else {
                    (lines.update(r as int, line.insert(c as int, ch)), ((c + 1) as usize, r), true)
                }
            },
            Key::Special(ScanCode::Left) => {
                if c > 0 {
                    (lines, ((c - 1) as usize, r), true)
                } else {
                    (lines, self.cursor, false)
                }
            },
            Key::Special(ScanCode::Right) => {
                if c < line.len() {
                    (lines, ((c + 1) as usize, r), true)
                } else {
                    (lines, self.cursor, false)
                }
            },
            Key::Special(ScanCode::Up) => {
                if r > 0 {
                    (lines, (min_usize(c, lines[r - 1].len() as usize), (r - 1) as usize), true)
                } else {
                    (lines, self.cursor, false)
                }
            },
            Key::Special(ScanCode::Down) => {
                if r + 1 < lines.len() {
                    (lines, (min_usize(c, lines[r + 1].len() as usize), (r + 1) as usize), true)
                } else {
                    (lines, self.cursor, false)
                }
            },
            Key::Special(ScanCode::Delete) => {
                if c + 1 < line.len() {
                    (lines.update(r as int, line.remove(c as int)), self.cursor, true)
                } else if r + 1 < lines.len() && r + 1 < self.grid.1 {
                    (lines.update(r as int, line + lines[r + 1]).remove(r + 1), self.cursor, true)
                } else {
                    (lines, self.cursor, false)
                }
            },
            _ => (lines, self.cursor, false),
        }
    }

    /// The state after the edit that `k` makes, before any redraw.
    pub open spec fn edited(self, k: Key) -> TextAreaView {
        self.with_text(self.key_edit(k).0, self.key_edit(k).1)
    }
}

pub open spec fn min_usize(a: usize, b: usize) -> usize {
    if a < b { a } else { b }
}

/// Lines taken by each line of `lines` once wrapped at `cols` columns.
pub open spec fn line_rows(lines: Seq<Seq<char>>, cols: int) -> Seq<int> {
    lines.map_values(|l: Seq<char>| wrap_of(l, cols).len() as int)
}

/// `counts[a] + ... + counts[b - 1]`.
pub open spec fn sum_range(counts: Seq<int>, a: int, b: int) -> int
    decreases b - a,
{
    if a >= b {
        0
    } else {
        counts[a] + sum_range(counts, a + 1, b)
    }
}

/// Walking up from line `k`, with `total` rows already taken by lines
/// `k..`: the first line to show so that as many lines as fit in `rows`
/// end with the cursor's.
pub open spec fn fit_back(counts: Seq<int>, k: int, rows: int, total: int) -> int
    decreases k,
{
    if k <= 0 {
        0
    } else if counts[k - 1] > rows - total {
        k
    } else {
        fit_back(counts, k - 1, rows, total + counts[k - 1])
    }
}

/// The first line shown in `Wrap` mode: moved up to the cursor's line if
/// that is above it; moved down by just enough lines when the cursor's
/// line does not fit below it; else kept.
pub open spec fn wrap_top(counts: Seq<int>, top: int, cur: int, rows: int) -> int {
    if cur < top {
        cur
    } else if sum_range(counts, top, cur + 1) > rows {
        if counts[cur] > rows {
            cur
        } else {
            fit_back(counts, cur, rows, counts[cur])
        }
    } else {
        top
    }
}

/// One axis of the viewport in `Scroll` mode: moved so that the cursor
/// stays `SCROLLOFF` characters away from either edge, never below zero.
pub open spec fn scroll_axis(start: int, c: int, span: int) -> int {
    if c < start + SCROLLOFF {
        if c >= SCROLLOFF {
            c - SCROLLOFF
        } else {
            0
        }
    } else if c > start + span - SCROLLOFF {
        c - (span - SCROLLOFF)
    } else {
        start
    }
}

impl TextAreaView {
    /// Where the viewport moves to keep the cursor in view.
    pub open spec fn dragged_viewport(self) -> (usize, usize) {
        match self.overflow {
            XOverflowBehavior::Scroll => (
                scroll_axis(self.viewport.0 as int, self.cursor.0 as int, self.grid.0 as int) as usize,
                scroll_axis(self.viewport.1 as int, self.cursor.1 as int, self.grid.1 as int) as usize,
            ),
            XOverflowBehavior::Wrap => (
                self.viewport.0,
                wrap_top(
                    line_rows(self.lines, self.grid.0 as int).take(self.cursor.1 + 1),
                    self.viewport.1 as int,
                    self.cursor.1 as int,
                    self.grid.1 as int,
                ) as usize,
            ),
        }
    }

    /// The grid is large enough for the overflow mode: one column to wrap
    /// into, or room for the scroll-off margins.
    pub open spec fn grid_ok(self) -> bool {
        match self.overflow {
            XOverflowBehavior::Wrap => self.grid.0 >= 1,
            XOverflowBehavior::Scroll => self.grid.0 >= SCROLLOFF && self.grid.1 >= SCROLLOFF,
        }
    }
}

/// An edit keeps the cursor on a line and at most one past its end.
pub proof fn lemma_edit_keeps_wf(v: TextAreaView, k: Key)
    requires
        v.wf(),
        lines_fit(v.edited(k).lines),
    ensures
        v.edited(k).wf(),
        v.edited(k).cursor.1 < v.edited(k).lines.len(),
        v.edited(k).cursor.0 <= v.edited(k).lines[v.edited(k).cursor.1 as int].len(),
{
    let (c, r) = v.cursor;
    let lines = v.lines;
    let line = lines[r as int];
    match k {
        Key::Printable(ch) => {
            if ch == BACKSPACE {
                if c > 0 {
                    let m = lines.update(r as int, line.remove(c - 1));
                    assert(m[r as int] == line.remove(c - 1));
                } else if r > 0 {
                    let m = lines.update(r - 1, lines[r - 1] + line).remove(r as int);
                    assert(m[r - 1] == lines[r - 1] + line);
                }
            } else if ch == '\n' || ch == '\r' {
                let m = lines.update(r as int, line.take(c as int)).insert(r + 1, line.skip(c as int));
                assert(m[r + 1] == line.skip(c as int));
            } else {
                let m = lines.update(r as int, line.insert(c as int, ch));
                assert(m[r as int] == line.insert(c as int, ch));
            }
        },
        Key::Special(ScanCode::Delete) => {
            if c + 1 < line.len() {
                let m = lines.update(r as int, line.remove(c as int));
                assert(m[r as int] == line.remove(c as int));
            } else if r + 1 < lines.len() && r + 1 < v.grid.1 {
                let m = lines.update(r as int, line + lines[r + 1]).remove(r + 1);
                assert(m[r as int] == line + lines[r + 1]);
            }
        },
        _ => {},
    }
}

/// One axis of the viewport in `Scroll` mode; see `scroll_axis`.
fn scroll_start(start: usize, c: usize, span: usize) -> (r: usize)
    requires
        span >= SCROLLOFF,
    ensures
        r as int == scroll_axis(start as int, c as int, span as int),
{
    if c < start || c - start < SCROLLOFF {
        if c >= SCROLLOFF {
            c - SCROLLOFF
        } else {
            0
        }
    } else if c - start > span - SCROLLOFF {
        c - (span - SCROLLOFF)
    } else {
        start
    }
}

proof fn lemma_sum_split(counts: Seq<int>, a: int, b: int)
    requires
        0 <= a < b <= counts.len(),
    ensures
        sum_range(counts, a, b) == sum_range(counts, a, b - 1) + counts[b - 1],
    decreases b - a,
{
    if a + 1 < b {
        lemma_sum_split(counts, a + 1, b);
    } else {
        assert(sum_range(counts, a + 1, b) == 0);
        assert(sum_range(counts, a, b - 1) == 0);
    }
}

proof fn lemma_sum_monotone(counts: Seq<int>, a: int, b: int, c: int)
    requires
        0 <= a <= b <= c,
        c <= counts.len(),
        forall|i: int| 0 <= i < counts.len() ==> counts[i] >= 0,
    ensures
        sum_range(counts, a, b) <= sum_range(counts, a, c),
    decreases c - b,
{
    if b < c {
        lemma_sum_split(counts, a, c);
        lemma_sum_monotone(counts, a, b, c - 1);
    }
}

/// The first line shown in `Wrap` mode; see `wrap_top`.
fn wrap_start(counts: &Vec<usize>, top: usize, cur: usize, rows: usize) -> (r: usize)
    requires
        counts@.len() == cur + 1,
        forall|i: int| 0 <= i < counts@.len() ==> counts@[i] >= 1,
    ensures
        r as int == wrap_top(counts@.map_values(|n: usize| n as int), top as int, cur as int, rows as int),
{
    let ghost cs = counts@.map_values(|n: usize| n as int);
    let n = counts.len();
    if cur < top {
        return cur;
    }
    // Does the run from `top` to the cursor's line take more than `rows`?
    let mut total: usize = 0;
    let mut k: usize = top;
    let mut over = false;
    while k <= cur && !over
        invariant
            cs == counts@.map_values(|n: usize| n as int),
            counts@.len() == cur + 1,
            n == counts@.len(),
            top <= k <= cur + 1,
            total <= rows,
            !over ==> total as int == sum_range(cs, top as int, k as int),
            over ==> sum_range(cs, top as int, cur + 1) > rows,
            forall|i: int| 0 <= i < counts@.len() ==> counts@[i] >= 1,
        decreases 2 * (cur + 1 - k) + (if over { 0int } else { 1int }),
    {
        if counts[k] > rows - total {
            proof {
                lemma_sum_split(cs, top as int, k + 1);
                lemma_sum_monotone(cs, top as int, k + 1, cur + 1);
            }
            over = true;
        } else {
            proof {
                lemma_sum_split(cs, top as int, k + 1);
            }
            total = total + counts[k];
            k = k + 1;
        }
    }
    if !over {
        return top;
    }
    if counts[cur] > rows {
        return cur;
    }
    // Take lines above the cursor's while they fit.
    let mut used: usize = counts[cur];
    let mut first: usize = cur;
    while first > 0
        invariant
            cs == counts@.map_values(|n: usize| n as int),
            counts@.len() == cur + 1,
            first <= cur,
            cs[cur as int] == counts@[cur as int] as int,
            top <= cur,
            sum_range(cs, top as int, cur + 1) > rows,
            counts@[cur as int] <= rows,
            used <= rows,
            fit_back(cs, first as int, rows as int, used as int) == fit_back(cs, cur as int, rows as int, counts@[cur as int] as int),
        decreases first,
    {
        assert(cs[first - 1] == counts@[first - 1] as int);
        if counts[first - 1] > rows - used {
            assert(fit_back(cs, first as int, rows as int, used as int) == first as int);
            return first;
        }
        used = used + counts[first - 1];
        first = first - 1;
    }
    0
}

/// The first range of `r`, from `k` on, that holds column `c`.
pub open spec fn region_from(r: Seq<(int, int)>, c: int, k: int) -> int
    decreases r.len() - k,
{
    if k >= r.len() || k < 0 {
        k
    } else if r[k].0 <= c <= r[k].1 {
        k
    } else {
        region_from(r, c, k + 1)
    }
}

impl TextAreaView {
    /// The cell size and the grid that drawing on `g` sets.
    pub open spec fn sized(self, g: Surface) -> TextAreaView {
        let cw = g.char_width(self.font_size);
        let ch = g.char_height(self.font_size);
        TextAreaView {
            cell: (cw as usize, ch as usize),
            grid: ((self.dims_px.0 / (cw as usize)) as usize, (self.dims_px.1 / (ch as usize)) as usize),
            ..self
        }
    }

    /// The state after drawing on `g`: sized, and the viewport moved to
    /// keep the cursor in view.
    pub open spec fn drawn(self, g: Surface) -> TextAreaView {
        let s = self.sized(g);
        TextAreaView { viewport: s.dragged_viewport(), ..s }
    }

    /// `g`'s font gives a character cell at least as tall as the cursor,
    /// and the grid it gives suits the overflow mode.
    pub open spec fn drawable(self, g: Surface) -> bool {
        let cw = g.char_width(self.font_size);
        let ch = g.char_height(self.font_size);
        &&& 0 < cw <= usize::MAX
        &&& CURSOR_WEIGHT <= ch <= usize::MAX
        &&& self.sized(g).grid_ok()
    }

    /// The cell, relative to the viewport, that the cursor is drawn in.
    pub open spec fn cursor_cell(self) -> (int, int) {
        let (c, r) = self.cursor;
        match self.overflow {
            XOverflowBehavior::Scroll => (c - self.viewport.0, r - self.viewport.1),
            XOverflowBehavior::Wrap => {
                let ranges = wrap_of(self.lines[r as int], self.grid.0 as int);
                let k = region_from(ranges, c as int, 0);
                (
                    c - ranges[k].0,
                    sum_range(line_rows(self.lines, self.grid.0 as int), self.viewport.1 as int, r as int) + k,
                )
            },
        }
    }

    /// The cursor is drawn only in an editable area, and only where its
    /// cell lies in the grid.
    pub open spec fn cursor_shown(self) -> bool {
        &&& self.edit
        &&& 0 <= self.cursor_cell().0 <= self.grid.0
        &&& 0 <= self.cursor_cell().1 < self.grid.1
    }

    /// What drawing the cursor records: a thin bar along the bottom of its
    /// cell.
    pub open spec fn cursor_ops(self, t: Theme) -> Seq<DrawOp> {
        if self.cursor_shown() {
            let (x, y) = self.cursor_cell();
            seq![
                t.rect_op(
                    ColorType::Cursor,
                    (
                        (self.start.0 + x * self.cell.0) as usize,
                        (self.start.1 + y * self.cell.1 + self.cell.1 - CURSOR_WEIGHT) as usize,
                    ),
                    (self.cell.0, CURSOR_WEIGHT),
                    None,
                ),
            ]
        } else {
            Seq::empty()
        }
    }

    /// The glyphs of `line[from..to]` on grid row `y`, from column zero.
    pub open spec fn row_glyphs(self, t: Theme, line: Seq<char>, from: int, to: int, y: int) -> Seq<DrawOp> {
        Seq::new(
            (to - from) as nat,
            |j: int|
                t.glyph_op(
                    line[from + j],
                    ((self.start.0 + j * self.cell.0) as usize, (self.start.1 + y * self.cell.1) as usize),
                    FontSize::P,
                    ColorType::Foreground,
                ),
        )
    }

    /// How many lines are shown from the viewport's first one.
    pub open spec fn shown_lines(self) -> int {
        let left = self.lines.len() - self.viewport.1;
        if left < self.grid.1 {
            left
        } else {
            self.grid.1 as int
        }
    }

    /// In `Scroll` mode, the glyphs of the `i`-th line shown.
    pub open spec fn scroll_row(self, t: Theme, i: int) -> Seq<DrawOp> {
        let line = self.lines[self.viewport.1 + i];
        let from = self.viewport.0 as int;
        let end = from + self.grid.0;
        if from < line.len() {
            self.row_glyphs(t, line, from, if line.len() < end { line.len() as int } else { end }, i)
        } else {
            Seq::empty()
        }
    }

    /// In `Scroll` mode, the glyphs of the first `n` lines shown.
    pub open spec fn scroll_rows(self, t: Theme, n: int) -> Seq<DrawOp>
        decreases n,
    {
        if n <= 0 {
            Seq::empty()
        } else {
            self.scroll_rows(t, n - 1) + self.scroll_row(t, n - 1)
        }
    }

    /// In `Wrap` mode, the screen rows of the first `n` lines shown, each
    /// as (line, start, end).
    pub open spec fn wrap_rows(self, n: int) -> Seq<(int, int, int)>
        decreases n,
    {
        if n <= 0 {
            Seq::empty()
        } else {
            let i = self.viewport.1 + n - 1;
            self.wrap_rows(n - 1) + wrap_of(self.lines[i], self.grid.0 as int).map_values(
                |p: (int, int)| (i, p.0, p.1),
            )
        }
    }

    /// The glyphs of screen rows `rows`, the first on grid row zero.
    pub open spec fn wrap_glyphs(self, t: Theme, rows: Seq<(int, int, int)>) -> Seq<DrawOp>
        decreases rows.len(),
    {
        if rows.len() == 0 {
            Seq::empty()
        } else {
            let (i, a, b) = rows.last();
            self.wrap_glyphs(t, rows.drop_last()) + self.row_glyphs(t, self.lines[i], a, b, rows.len() - 1)
        }
    }

    /// What drawing the text records: the characters in the viewport,
    /// one glyph each, row by row.
    pub open spec fn text_ops(self, t: Theme) -> Seq<DrawOp> {
        match self.overflow {
            XOverflowBehavior::Scroll => self.scroll_rows(t, self.shown_lines()),
            XOverflowBehavior::Wrap => self.wrap_glyphs(
                t,
                self.wrap_rows(self.shown_lines()).take(
                    min_int(self.wrap_rows(self.shown_lines()).len() as int, self.grid.1 as int),
                ),
            ),
        }
    }

    /// Everything a draw records, on a drawn state: the background with
    /// its border, the cursor, then the text.
    pub open spec fn render(self, t: Theme, focused: bool) -> Seq<DrawOp> {
        seq![
            t.rect_op(
                ColorType::Background,
                self.start,
                self.dims_px,
                Some(if focused { ColorType::BorderFocused } else { ColorType::BorderUnfocused }),
            ),
        ] + self.cursor_ops(t) + self.text_ops(t)
    }
}

pub open spec fn min_int(a: int, b: int) -> int {
    if a < b { a } else { b }
}

impl TextAreaView {
    /// Sized and with the viewport where a draw leaves it: what the
    /// drawing steps need.
    pub open spec fn laid_out(self) -> bool {
        &&& self.wf()
        &&& 0 < self.cell.0
        &&& CURSOR_WEIGHT <= self.cell.1
        &&& self.grid.0 == self.dims_px.0 / self.cell.0
        &&& self.grid.1 == self.dims_px.1 / self.cell.1
        &&& self.grid_ok()
        &&& self.viewport.1 <= self.cursor.1
        &&& self.overflow == XOverflowBehavior::Scroll ==> self.viewport.0 <= self.cursor.0
    }
}

/// `a` whole cells of width `w` fit in `n` when `a <= n / w`; one more
/// fits when `a < n / w`.
proof fn lemma_cells_fit(a: int, w: int, n: int)
    requires
        0 <= a,
        0 < w,
        0 <= n,
        a <= n / w,
    ensures
        a * w <= n,
        a < n / w ==> a * w + w <= n,
{
    let q = n / w;
    assert(q * w <= n) by {
        vstd::arithmetic::div_mod::lemma_fundamental_div_mod(n, w);
        vstd::arithmetic::div_mod::lemma_mod_pos_bound(n, w);
        vstd::arithmetic::mul::lemma_mul_is_commutative(w, q);
    }
    assert(a * w <= q * w) by {
        vstd::arithmetic::mul::lemma_mul_inequality(a, q, w);
    }
    if a < q {
        assert((a + 1) * w <= q * w) by {
            vstd::arithmetic::mul::lemma_mul_inequality(a + 1, q, w);
        }
        assert((a + 1) * w == a * w + w) by {
            vstd::arithmetic::mul::lemma_mul_is_distributive_add_other_way(w, a, 1);
        }
    }
}

/// The first range holding a column exists when the ranges tile the line
/// and the column is at most its length.
proof fn lemma_region_found(r: Seq<(int, int)>, c: int, k: int, len: int, cols: int)
    requires
        tiles(r, len, cols),
        0 <= k < r.len(),
        r[k].0 <= c <= len,
    ensures
        k <= region_from(r, c, k) < r.len(),
        r[region_from(r, c, k)].0 <= c <= r[region_from(r, c, k)].1,
    decreases r.len() - k,
{
    if !(c <= r[k].1) {
        if k + 1 >= r.len() {
            assert(r.last() == r[k]);
        } else {
            lemma_region_found(r, c, k + 1, len, cols);
        }
    }
}

/// The screen rows of the first `i` lines shown are the first rows of the
/// first `j` lines shown, for `i <= j`.
proof fn lemma_wrap_rows_prefix(v: TextAreaView, i: int, j: int)
    requires
        0 <= i <= j,
    ensures
        v.wrap_rows(i).len() <= v.wrap_rows(j).len(),
        v.wrap_rows(j).take(v.wrap_rows(i).len() as int) == v.wrap_rows(i),
    decreases j - i,
{
    if i < j {
        lemma_wrap_rows_prefix(v, i, j - 1);
        let a = v.wrap_rows(j - 1);
        let b = v.wrap_rows(j);
        assert(b.take(a.len() as int) =~= a);
        assert(b.take(v.wrap_rows(i).len() as int) =~= a.take(v.wrap_rows(i).len() as int));
    } else {
        assert(v.wrap_rows(j).take(v.wrap_rows(j).len() as int) =~= v.wrap_rows(j));
    }
}

proof fn lemma_fit_back(counts: Seq<int>, k: int, cur: int, rows: int, total: int)
    requires
        0 <= k <= cur < counts.len(),
        total == sum_range(counts, k, cur + 1),
        total <= rows,
    ensures
        0 <= fit_back(counts, k, rows, total) <= k,
        sum_range(counts, fit_back(counts, k, rows, total), cur + 1) <= rows,
    decreases k,
{
    if k > 0 && counts[k - 1] <= rows - total {
        lemma_fit_back(counts, k - 1, cur, rows, total + counts[k - 1]);
    }
}

/// Where a draw leaves the viewport, the cursor is not above it, nor (in
/// `Scroll` mode) left of it.
proof fn lemma_dragged_placed(v: TextAreaView)
    requires
        v.wf(),
        v.grid_ok(),
    ensures
        v.dragged_viewport().1 <= v.cursor.1,
        v.overflow == XOverflowBehavior::Scroll ==> v.dragged_viewport().0 <= v.cursor.0,
{
    if v.overflow == XOverflowBehavior::Wrap {
        let counts = line_rows(v.lines, v.grid.0 as int).take(v.cursor.1 + 1);
        let cur = v.cursor.1 as int;
        let top = v.viewport.1 as int;
        if !(cur < top) && sum_range(counts, top, cur + 1) > v.grid.1 && counts[cur] <= v.grid.1 {
            assert(sum_range(counts, cur, cur + 1) == counts[cur]) by {
                assert(sum_range(counts, cur + 1, cur + 1) == 0);
            }
            lemma_fit_back(counts, cur, cur, v.grid.1 as int, counts[cur]);
        }
    }
}

/// In `Scroll` mode an axis does not move on a second pass when the
/// span leaves room for both margins.
proof fn lemma_scroll_axis_stable(start: int, c: int, span: int)
    requires
        0 <= start,
        0 <= c,
        span >= 2 * SCROLLOFF,
    ensures
        0 <= scroll_axis(start, c, span) <= c,
        scroll_axis(scroll_axis(start, c, span), c, span) == scroll_axis(start, c, span),
{
}

/// The first line shown in `Wrap` mode does not move on a second pass.
proof fn lemma_wrap_top_stable(counts: Seq<int>, top: int, cur: int, rows: int)
    requires
        0 <= top,
        0 <= cur < counts.len(),
        forall|i: int| 0 <= i < counts.len() ==> counts[i] >= 0,
    ensures
        0 <= wrap_top(counts, top, cur, rows),
        wrap_top(counts, top, cur, rows) <= cur || wrap_top(counts, top, cur, rows) == top,
        wrap_top(counts, wrap_top(counts, top, cur, rows), cur, rows) == wrap_top(counts, top, cur, rows),
{
    assert(sum_range(counts, cur, cur + 1) == counts[cur]) by {
        assert(sum_range(counts, cur + 1, cur + 1) == 0);
    }
    if !(cur < top) && sum_range(counts, top, cur + 1) > rows && counts[cur] <= rows {
        lemma_fit_back(counts, cur, cur, rows, counts[cur]);
    }
}

/// Drawing twice shows what drawing once shows: the second draw leaves
/// the state as the first left it and records the same commands. In
/// `Scroll` mode this asks for a grid at least twice the scroll-off margin
/// in each direction; on a narrower one the viewport would swing between
/// two places.
pub proof fn lemma_draw_idempotent(v: TextAreaView, g: Surface, focused: bool)
    requires
        v.wf(),
        v.drawable(g),
        v.overflow == XOverflowBehavior::Scroll ==> v.sized(g).grid.0 >= 2 * SCROLLOFF
            && v.sized(g).grid.1 >= 2 * SCROLLOFF,
    ensures
        v.drawn(g).drawn(g) == v.drawn(g),
        v.drawn(g).drawn(g).render(g.theme, focused) == v.drawn(g).render(g.theme, focused),
{
    let s = v.sized(g);
    let d = v.drawn(g);
    assert(d.sized(g) == (TextAreaView { viewport: d.viewport, ..s }));
    if v.overflow == XOverflowBehavior::Wrap {
        let counts = line_rows(s.lines, s.grid.0 as int).take(s.cursor.1 + 1);
        assert forall|i: int| 0 <= i < counts.len() implies counts[i] >= 0 by {}
        lemma_wrap_top_stable(counts, s.viewport.1 as int, s.cursor.1 as int, s.grid.1 as int);
    } else {
        lemma_scroll_axis_stable(s.viewport.0 as int, s.cursor.0 as int, s.grid.0 as int);
        lemma_scroll_axis_stable(s.viewport.1 as int, s.cursor.1 as int, s.grid.1 as int);
    }
    assert(d.sized(g).dragged_viewport() == d.viewport);
    assert(d.drawn(g) == d);
}

/// A text field, editable or read only, that wraps or scrolls lines wider
/// than it is.
pub struct TextArea {
    id: String,
    subscriptions: Vec<String>,
    content: Vec<Vec<char>>,
    edit: bool,
    start: (usize, usize),
    dimensions_px: (usize, usize),
    font_size: FontSize,
    x_overflow: XOverflowBehavior,
    cursor: (usize, usize),
    viewport_start: (usize, usize),
    char_width: usize,
    char_height: usize,
    dimensions_chars: (usize, usize),
}

impl View for TextArea {
    type V = TextAreaView;

    closed spec fn view(&self) -> TextAreaView {
        TextAreaView {
            id: self.id@,
            subscriptions: strings_view(self.subscriptions@),
            lines: self.content@.map_values(|l: Vec<char>| l@),
            edit: self.edit,
            start: self.start,
            dims_px: self.dimensions_px,
            font_size: self.font_size,
            overflow: self.x_overflow,
            cursor: self.cursor,
            viewport: self.viewport_start,
            cell: (self.char_width, self.char_height),
            grid: self.dimensions_chars,
        }
    }
}

impl TextArea {
    /// A text area showing `content`, split into lines at `'\n'` and
    /// `'\r'`, with the cursor and the viewport at the origin.
    /// `start` is its top left corner and `dimensions_px` its size, in pixels.
    pub fn new(
        id: String,
        subscriptions: Vec<String>,
        content: String,
        edit: bool,
        start: (usize, usize),
        dimensions_px: (usize, usize),
        font_size: FontSize,
        x_overflow: XOverflowBehavior,
    ) -> (r: TextArea)
        requires
            start.0 + dimensions_px.0 <= usize::MAX,
            start.1 + dimensions_px.1 <= usize::MAX,
        ensures
            r@.wf(),
            r@.id == id@,
            r@.subscriptions == strings_view(subscriptions@),
            r@.lines == split_lines(content@),
            r@.edit == edit,
            r@.start == start,
            r@.dims_px == dimensions_px,
            r@.font_size == font_size,
            r@.overflow == x_overflow,
            r@.cursor == (0usize, 0usize),
            r@.viewport == (0usize, 0usize),
            r@.cell == (0usize, 0usize),
            r@.grid == (0usize, 0usize),
    {
        let mut lines: Vec<Vec<char>> = Vec::new();
        lines.push(Vec::new());
        let ghost s = content@;
        let mut done: Ghost<Seq<char>> = Ghost(Seq::empty());
        proof {
            assert(lines@.map_values(|l: Vec<char>| l@) =~= split_lines(Seq::<char>::empty()));
            assert(s.take(0) =~= Seq::<char>::empty());
        }
        for c in it: content.as_str().chars()
            invariant
                it.index() <= s.len(),
                it.seq() == s,
                done@ == s.take(it.index() as int),
                lines@.len() >= 1,
                lines@.map_values(|l: Vec<char>| l@) == split_lines(done@),
                lines_fit(lines@.map_values(|l: Vec<char>| l@)),
        {
            let ghost prev = done@;
            if c == '\n' || c == '\r' {
                lines.push(Vec::new());
            } else {
                let k = lines.len() - 1;
                let mut last = lines.pop().unwrap();
                last.push(c);
                let _m = last.len();
                lines.push(last);
                assert(k == lines.len() - 1);
            }
            let _n = lines.len();
            done = Ghost(prev.push(c));
            proof {
                assert(s.take(it.index() + 1) =~= prev.push(c));
                assert(done@.drop_last() =~= prev);
                assert(lines@.map_values(|l: Vec<char>| l@) =~= split_lines(done@));
            }
        }
        proof {
            assert(s.take(s.len() as int) =~= s);
        }
        TextArea {
            id,
            subscriptions,
            content: lines,
            edit,
            start,
            dimensions_px,
            font_size,
            x_overflow,
            cursor: (0, 0),
            viewport_start: (0, 0),
            char_width: 0,
            char_height: 0,
            dimensions_chars: (0, 0),
        }
    }

    pub fn id(&self) -> (r: &String)
        ensures
            r@ == self@.id,
    {
        &self.id
    }

    pub fn get_subscriptions(&self) -> (r: &Vec<String>)
        ensures
            strings_view(r@) == self@.subscriptions,
    {
        &self.subscriptions
    }

    pub fn dimensions(&self) -> (r: (usize, usize))
        ensures
            r == self@.dims_px,
    {
        self.dimensions_px
    }

    /// The whole text, its lines joined with `'\n'`.
    pub fn get_value(&self) -> (r: String)
        ensures
            r@ == join_lines(self@.lines),
    {
        let ghost lines = self@.lines;
        let mut out = String::new();
        let n = self.content.len();
        let mut i: usize = 0;
        while i < n
            invariant
                n == self.content@.len(),
                lines == self@.lines,
                lines.len() == n,
                i <= n,
                out@ == join_lines(lines.take(i as int)),
            decreases n - i,
        {
            if i > 0 {
                push_char(&mut out, '\n');
            }
            let line = &self.content[i];
            let m = line.len();
            let mut j: usize = 0;
            let ghost base = out@;
            while j < m
                invariant
                    m == line@.len(),
                    j <= m,
                    out@ == base + line@.take(j as int),
                decreases m - j,
            {
                push_char(&mut out, line[j]);
                proof {
                    assert(line@.take(j + 1) =~= line@.take(j as int).push(line@[j as int]));
                }
                j = j + 1;
            }
            proof {
                assert(line@.take(m as int) =~= line@);
                assert(lines[i as int] == line@);
                let t = lines.take(i + 1);
                assert(t.drop_last() =~= lines.take(i as int));
                if i == 0 {
                    assert(out@ =~= t[0]);
                } else {
                    assert(out@ =~= join_lines(t.drop_last()).push('\n') + t.last());
                }
            }
            i = i + 1;
        }
        proof {
            assert(lines.take(n as int) =~= lines);
        }
        out
    }

    /// Every line of the content, and their number, fit in a `usize`.
    fn check_fit(&self, r: usize)
        requires
            r < self@.lines.len(),
            forall|i: int| 0 <= i < self@.lines.len() && i != r ==> #[trigger] self@.lines[i].len() <= usize::MAX,
        ensures
            lines_fit(self@.lines),
    {
        let _n = self.content.len();
        let _m = self.content[r].len();
        assert(self@.lines[r as int] == self.content@[r as int]@);
    }

    /// Keep the cursor's column within its line after a vertical move.
    fn snap_cursor(&mut self)
        requires
            old(self).cursor.1 < old(self).content@.len(),
        ensures
            final(self)@ == old(self)@.with_text(
                old(self)@.lines,
                (
                    min_usize(old(self)@.cursor.0, old(self)@.lines[old(self)@.cursor.1 as int].len() as usize),
                    old(self)@.cursor.1,
                ),
            ),
    {
        let len = self.content[self.cursor.1].len();
        if len < self.cursor.0 {
            self.cursor.0 = len;
        }
        proof {
            assert(self@.lines =~= old(self)@.lines);
        }
    }

    /// Backspace: delete the character before the cursor, or join the
    /// line to the one above when the cursor is at its start.
    fn backspace(&mut self) -> (changed: bool)
        requires
            old(self)@.wf(),
        ensures
            lines_fit(final(self)@.lines),
            final(self)@ == old(self)@.edited(Key::Printable(BACKSPACE)),
            changed == old(self)@.key_edit(Key::Printable(BACKSPACE)).2,
    {
        let ghost lines = self@.lines;
        let c = self.cursor.0;
        let r = self.cursor.1;
        assert(lines[r as int] == self.content@[r as int]@);
        if c > 0 {
            let mut line = self.content.remove(r);
            line.remove(c - 1);
            self.content.insert(r, line);
            self.cursor.0 = c - 1;
            proof {
                assert(self@.lines =~= lines.update(r as int, lines[r as int].remove(c - 1)));
            }
            self.check_fit(r);
            true
        } else if r > 0 {
            let mut line = self.content.remove(r);
            let mut prev = self.content.remove(r - 1);
            let prev_len = prev.len();
            prev.append(&mut line);
            self.content.insert(r - 1, prev);
            self.cursor = (prev_len, r - 1);
            proof {
                assert(self@.lines =~= lines.update(r - 1, lines[r - 1] + lines[r as int]).remove(r as int));
            }
            self.check_fit(r - 1);
            true
        } else {
            false
        }
    }

    /// Enter: split the line at the cursor and move to the start of the
    /// second half.
    fn split_line(&mut self, ch: char)
        requires
            old(self)@.wf(),
            ch == '\n' || ch == '\r',
        ensures
            lines_fit(final(self)@.lines),
            final(self)@ == old(self)@.edited(Key::Printable(ch)),
    {
        let ghost lines = self@.lines;
        let c = self.cursor.0;
        let r = self.cursor.1;
        let n = self.content.len();
        assert(lines[r as int] == self.content@[r as int]@);
        let mut line = self.content.remove(r);
        let rest = line.split_off(c);
        let _a = line.len();
        let _b = rest.len();
        self.content.insert(r, line);
        self.content.insert(r + 1, rest);
        let _n = self.content.len();
        self.cursor = (0, r + 1);
        proof {
            assert(self@.lines =~= lines.update(r as int, lines[r as int].take(c as int)).insert(
                r + 1,
                lines[r as int].skip(c as int),
            ));
        }
    }

    /// Insert a printable character at the cursor and move past it.
    fn insert_char(&mut self, ch: char)
        requires
            old(self)@.wf(),
            ch != BACKSPACE,
            ch != '\n',
            ch != '\r',
        ensures
            lines_fit(final(self)@.lines),
            final(self)@ == old(self)@.edited(Key::Printable(ch)),
    {
        let ghost lines = self@.lines;
        let c = self.cursor.0;
        let r = self.cursor.1;
        assert(lines[r as int] == self.content@[r as int]@);
        let mut line = self.content.remove(r);
        line.insert(c, ch);
        let grown = line.len();
        assert(c < grown);
        self.content.insert(r, line);
        self.cursor.0 = c + 1;
        proof {
            assert(self@.lines =~= lines.update(r as int, lines[r as int].insert(c as int, ch)));
        }
        self.check_fit(r);
    }

    /// Delete: remove the character at the cursor, or, on the last
    /// character of a line or past it, join the next line to this one
    /// when that line is shown.
    fn delete(&mut self) -> (changed: bool)
        requires
            old(self)@.wf(),
        ensures
            lines_fit(final(self)@.lines),
            final(self)@ == old(self)@.edited(Key::Special(ScanCode::Delete)),
            changed == old(self)@.key_edit(Key::Special(ScanCode::Delete)).2,
    {
        let ghost lines = self@.lines;
        let c = self.cursor.0;
        let r = self.cursor.1;
        let n = self.content.len();
        assert(lines[r as int] == self.content@[r as int]@);
        let len = self.content[r].len();
        if len > 0 && c < len - 1 {
            let mut line = self.content.remove(r);
            line.remove(c);
            self.content.insert(r, line);
            proof {
                assert(self@.lines =~= lines.update(r as int, lines[r as int].remove(c as int)));
            }
            self.check_fit(r);
            true
        } else if r + 1 < n && r + 1 < self.dimensions_chars.1 {
            let mut next = self.content.remove(r + 1);
            let mut line = self.content.remove(r);
            line.append(&mut next);
            self.content.insert(r, line);
            proof {
                assert(self@.lines =~= lines.update(r as int, lines[r as int] + lines[r + 1]).remove(r + 1));
            }
            self.check_fit(r);
            true
        } else {
            proof {
                assert(self@.lines =~= lines);
            }
            false
        }
    }

    /// Move the cursor for an arrow key.
    fn move_cursor(&mut self, code: ScanCode) -> (changed: bool)
        requires
            old(self)@.wf(),
            code != ScanCode::Delete,
        ensures
            final(self)@ == old(self)@.edited(Key::Special(code)),
            changed == old(self)@.key_edit(Key::Special(code)).2,
    {
        let c = self.cursor.0;
        let r = self.cursor.1;
        let n = self.content.len();
        proof {
            assert(self@.lines =~= old(self)@.lines);
            assert(self@.lines[r as int] == self.content@[r as int]@);
        }
        match code {
            ScanCode::Left => {
                if c > 0 {
                    self.cursor.0 = c - 1;
                    true
                } else {
                    false
                }
            },
            ScanCode::Right => {
                if c < self.content[r].len() {
                    self.cursor.0 = c + 1;
                    true
                } else {
                    false
                }
            },
            ScanCode::Up => {
                if r > 0 {
                    self.cursor.1 = r - 1;
                    self.snap_cursor();
                    true
                } else {
                    false
                }
            },
            ScanCode::Down => {
                if r + 1 < n {
                    self.cursor.1 = r + 1;
                    self.snap_cursor();
                    true
                } else {
                    false
                }
            },
            _ => false,
        }
    }

    /// Apply the edit or the cursor move that `k` asks for; tell whether
    /// anything changed.
    fn apply_key(&mut self, k: Key) -> (changed: bool)
        requires
            old(self)@.wf(),
        ensures
            final(self)@ == old(self)@.edited(k),
            changed == old(self)@.key_edit(k).2,
            final(self)@.wf(),
    {
        let changed = match k {
            Key::Printable(ch) => {
                if ch == BACKSPACE {
                    self.backspace()
                } else if ch == '\n' || ch == '\r' {
                    self.split_line(ch);
                    true
                } else {
                    self.insert_char(ch);
                    true
                }
            },
            Key::Special(ScanCode::Delete) => self.delete(),
            Key::Special(code) => self.move_cursor(code),
        };
        proof {
            lemma_edit_keeps_wf(old(self)@, k);
        }
        changed
    }

    /// Keep the cursor in view: in `Scroll` mode keep it `SCROLLOFF`
    /// characters from the edges; in `Wrap` mode move the first line shown
    /// so that all of the cursor's line fits.
    fn drag_viewport(&mut self)
        requires
            old(self)@.wf(),
            old(self)@.grid_ok(),
        ensures
            final(self)@ == (TextAreaView { viewport: old(self)@.dragged_viewport(), ..old(self)@ }),
    {
        match self.x_overflow {
            XOverflowBehavior::Scroll => {
                let x = scroll_start(self.viewport_start.0, self.cursor.0, self.dimensions_chars.0);
                let y = scroll_start(self.viewport_start.1, self.cursor.1, self.dimensions_chars.1);
                self.viewport_start = (x, y);
                assert(x as int == scroll_axis(old(self)@.viewport.0 as int, old(self)@.cursor.0 as int, old(self)@.grid.0 as int));
                assert(self@.viewport == old(self)@.dragged_viewport());
                assert(self@.lines == old(self)@.lines);
            },
            XOverflowBehavior::Wrap => {
                let counts = self.rows_up_to_cursor();
                let top = wrap_start(&counts, self.viewport_start.1, self.cursor.1, self.dimensions_chars.1);
                self.viewport_start.1 = top;
                proof {
                    assert(counts@.map_values(|n: usize| n as int) =~= line_rows(
                        self@.lines,
                        self@.grid.0 as int,
                    ).take(self@.cursor.1 + 1));
                }
                assert(self@.viewport == old(self)@.dragged_viewport());
                assert(self@.lines == old(self)@.lines);
            },
        }
    }

    /// The wrapped height of each line up to the cursor's.
    fn rows_up_to_cursor(&self) -> (r: Vec<usize>)
        requires
            self@.wf(),
            self@.grid.0 >= 1,
        ensures
            r@.len() == self@.cursor.1 + 1,
            forall|i: int| 0 <= i < r@.len() ==> r@[i] as int == line_rows(self@.lines, self@.grid.0 as int)[i],
            forall|i: int| 0 <= i < r@.len() ==> r@[i] >= 1,
    {
        let cols = self.dimensions_chars.0;
        let n = self.content.len();
        let mut out: Vec<usize> = Vec::new();
        let mut i: usize = 0;
        while i <= self.cursor.1
            invariant
                self@.wf(),
                cols == self@.grid.0,
                cols >= 1,
                i <= self.cursor.1 + 1,
                n == self.content@.len(),
                out@.len() == i,
                forall|j: int| 0 <= j < i ==> out@[j] as int == line_rows(self@.lines, cols as int)[j],
                forall|j: int| 0 <= j < i ==> out@[j] >= 1,
            decreases self.cursor.1 + 1 - i,
        {
            let w = wrap_line(&self.content[i], cols);
            proof {
                assert(self@.lines[i as int] == self.content@[i as int]@);
                assert(ranges_view(w@).len() == w@.len());
            }
            out.push(w.len());
            i = i + 1;
        }
        out
    }

    /// Where the cursor's cell is, relative to the viewport, in `Wrap`
    /// mode; `None` when it lies below the grid.
    fn wrap_cursor_cell(&self) -> (r: Option<(usize, usize)>)
        requires
            self@.laid_out(),
            self@.overflow == XOverflowBehavior::Wrap,
        ensures
            match r {
                Some((x, y)) => (x as int, y as int) == self@.cursor_cell() && y < self@.grid.1,
                None => self@.cursor_cell().1 >= self@.grid.1,
            },
    {
        let ghost v = self@;
        let ghost counts = line_rows(v.lines, v.grid.0 as int);
        let cols = self.dimensions_chars.0;
        let rows = self.dimensions_chars.1;
        let (c, cur) = self.cursor;
        proof {
            assert forall|j: int| 0 <= j < counts.len() implies counts[j] >= 0 by {}
        }
        if rows == 0 {
            proof {
                lemma_sum_monotone(counts, v.viewport.1 as int, v.viewport.1 as int, cur as int);
                lemma_wrap_tiles(v.lines[v.cursor.1 as int], cols as int);
                let rr = wrap_of(v.lines[v.cursor.1 as int], cols as int);
                lemma_region_found(rr, c as int, 0, v.lines[v.cursor.1 as int].len() as int, cols as int);
            }
            return None;
        }
        let mut total: usize = 0;
        let mut i: usize = self.viewport_start.1;
        while i < cur
            invariant
                v == self@,
                counts == line_rows(v.lines, v.grid.0 as int),
                self@.laid_out(),
                cols == v.grid.0,
                rows == v.grid.1,
                cur == v.cursor.1,
                c == v.cursor.0,
                v.overflow == XOverflowBehavior::Wrap,
                forall|j: int| 0 <= j < counts.len() ==> counts[j] >= 0,
                v.viewport.1 <= i <= cur,
                total as int == sum_range(counts, v.viewport.1 as int, i as int),
                total < rows,
            decreases cur - i,
        {
            let w = wrap_line(&self.content[i], cols);
            proof {
                assert(v.lines[i as int] == self.content@[i as int]@);
                assert(ranges_view(w@).len() == w@.len());
                lemma_sum_split(counts, v.viewport.1 as int, i + 1);
            }
            if w.len() >= rows - total {
                proof {
                    assert(counts[i as int] == w@.len());
                    assert(sum_range(counts, v.viewport.1 as int, i + 1) >= rows);
                    lemma_sum_monotone(counts, v.viewport.1 as int, i + 1, cur as int);
                    assert(sum_range(counts, v.viewport.1 as int, cur as int) >= rows);
                    lemma_wrap_tiles(v.lines[v.cursor.1 as int], cols as int);
                    let rr = wrap_of(v.lines[v.cursor.1 as int], cols as int);
                    lemma_region_found(rr, c as int, 0, v.lines[v.cursor.1 as int].len() as int, cols as int);
                }
                return None;
            }
            total = total + w.len();
            i = i + 1;
        }
        let ranges = wrap_line(&self.content[cur], cols);
        let ghost rr = ranges_view(ranges@);
        proof {
            assert(v.lines[cur as int] == self.content@[cur as int]@);
            lemma_wrap_tiles(v.lines[cur as int], cols as int);
            lemma_region_found(rr, c as int, 0, v.lines[cur as int].len() as int, cols as int);
        }
        let mut k: usize = 0;
        while !(ranges[k].0 <= c && c <= ranges[k].1)
            invariant
                v.wf(),
                cur == v.cursor.1,
                tiles(rr, v.lines[cur as int].len() as int, cols as int),
                rr == ranges_view(ranges@),
                0 <= k < rr.len(),
                rr[k as int].0 <= c,
                region_from(rr, c as int, k as int) == region_from(rr, c as int, 0),
                c <= v.lines[cur as int].len(),
            decreases rr.len() - k,
        {
            proof {
                lemma_region_found(rr, c as int, k as int, v.lines[cur as int].len() as int, cols as int);
            }
            k = k + 1;
        }
        if k >= rows - total {
            return None;
        }
        Some((c - ranges[k].0, total + k))
    }

    /// Draw the cursor, if the area is editable and the cursor in view.
    fn maybe_draw_cursor(&self, g: &mut Graphics)
        requires
            self@.laid_out(),
        ensures
            final(g).same_surface(old(g)),
            final(g).ops@ == old(g).ops@ + self@.cursor_ops(old(g).theme),
    {
        let ghost v = self@;
        if !self.edit {
            proof {
                assert(old(g).ops@ + v.cursor_ops(old(g).theme) =~= old(g).ops@);
            }
            return;
        }
        let cols = self.dimensions_chars.0;
        let rows = self.dimensions_chars.1;
        let cell = match self.x_overflow {
            XOverflowBehavior::Scroll => Some((self.cursor.0 - self.viewport_start.0, self.cursor.1 - self.viewport_start.1)),
            XOverflowBehavior::Wrap => self.wrap_cursor_cell(),
        };
        match cell {
            Some((x, y)) => {
                if x > cols || y >= rows {
                    proof {
                        assert(old(g).ops@ + v.cursor_ops(old(g).theme) =~= old(g).ops@);
                    }
                    return;
                }
                let cw = self.char_width;
                let ch = self.char_height;
                proof {
                    lemma_cells_fit(x as int, cw as int, v.dims_px.0 as int);
                    lemma_cells_fit(y as int, ch as int, v.dims_px.1 as int);
                }
                let top_left = (self.start.0 + x * cw, self.start.1 + y * ch + ch - CURSOR_WEIGHT);
                g.draw_rect(ColorType::Cursor, top_left, (cw, CURSOR_WEIGHT), None);
                proof {
                    assert(old(g).ops@.push(old(g).theme.rect_op(ColorType::Cursor, top_left, (cw, CURSOR_WEIGHT), None))
                        =~= old(g).ops@ + v.cursor_ops(old(g).theme));
                }
            },
            None => {
                proof {
                    assert(old(g).ops@ + v.cursor_ops(old(g).theme) =~= old(g).ops@);
                }
            },
        }
    }

    /// Draw `c` in the cell `pos` of the grid.
    fn print_char(&self, g: &mut Graphics, c: char, pos: (usize, usize))
        requires
            self@.laid_out(),
            pos.0 < self@.grid.0,
            pos.1 < self@.grid.1,
        ensures
            final(g).same_surface(old(g)),
            final(g).ops@ == old(g).ops@.push(
                old(g).theme.glyph_op(
                    c,
                    (
                        (self@.start.0 + pos.0 * self@.cell.0) as usize,
                        (self@.start.1 + pos.1 * self@.cell.1) as usize,
                    ),
                    FontSize::P,
                    ColorType::Foreground,
                ),
            ),
    {
        proof {
            lemma_cells_fit(pos.0 as int, self.char_width as int, self.dimensions_px.0 as int);
            lemma_cells_fit(pos.1 as int, self.char_height as int, self.dimensions_px.1 as int);
        }
        let px = (self.start.0 + pos.0 * self.char_width, self.start.1 + pos.1 * self.char_height);
        g.write_char(c, px, FontSize::P, ColorType::Foreground);
    }

    /// Draw `line[from..to]` of line `idx` on grid row `y`.
    fn draw_row(&self, g: &mut Graphics, idx: usize, from: usize, to: usize, y: usize)
        requires
            self@.laid_out(),
            idx < self@.lines.len(),
            from <= to <= self@.lines[idx as int].len(),
            to - from <= self@.grid.0,
            y < self@.grid.1,
        ensures
            final(g).same_surface(old(g)),
            final(g).ops@ == old(g).ops@ + self@.row_glyphs(old(g).theme, self@.lines[idx as int], from as int, to as int, y as int),
    {
        let ghost v = self@;
        let ghost line = v.lines[idx as int];
        let line_ref = &self.content[idx];
        assert(line_ref@ == line);
        let mut j: usize = 0;
        while j < to - from
            invariant
                v == self@,
                self@.laid_out(),
                line_ref@ == line,
                from <= to <= line.len(),
                to - from <= v.grid.0,
                y < v.grid.1,
                j <= to - from,
                g.same_surface(old(g)),
                g.ops@ == old(g).ops@ + v.row_glyphs(old(g).theme, line, from as int, to as int, y as int).take(j as int),
            decreases to - from - j,
        {
            let ghost before = g.ops@;
            self.print_char(g, line_ref[from + j], (j, y));
            proof {
                let full = v.row_glyphs(old(g).theme, line, from as int, to as int, y as int);
                assert(full.take(j + 1) =~= full.take(j as int).push(full[j as int]));
            }
            j = j + 1;
        }
        proof {
            let full = v.row_glyphs(old(g).theme, line, from as int, to as int, y as int);
            assert(full.take((to - from) as int) =~= full);
        }
    }

    /// How many lines are shown from the viewport's first one.
    fn shown_lines(&self) -> (r: usize)
        requires
            self@.laid_out(),
        ensures
            r as int == self@.shown_lines(),
            self@.viewport.1 + r <= self@.lines.len(),
            r <= self@.grid.1,
    {
        let left = self.content.len() - self.viewport_start.1;
        if left < self.dimensions_chars.1 {
            left
        } else {
            self.dimensions_chars.1
        }
    }

    /// Draw the text in `Scroll` mode.
    fn draw_with_x_scrolling(&self, g: &mut Graphics)
        requires
            self@.laid_out(),
            self@.overflow == XOverflowBehavior::Scroll,
        ensures
            final(g).same_surface(old(g)),
            final(g).ops@ == old(g).ops@ + self@.text_ops(old(g).theme),
    {
        let ghost v = self@;
        let shown = self.shown_lines();
        let cols = self.dimensions_chars.0;
        let start_col = self.viewport_start.0;
        let mut i: usize = 0;
        proof {
            assert(old(g).ops@ + v.scroll_rows(old(g).theme, 0) =~= old(g).ops@);
        }
        while i < shown
            invariant
                v == self@,
                self@.laid_out(),
                shown as int == v.shown_lines(),
                v.viewport.1 + shown <= v.lines.len(),
                shown <= v.grid.1,
                cols == v.grid.0,
                start_col == v.viewport.0,
                i <= shown,
                g.same_surface(old(g)),
                g.ops@ == old(g).ops@ + v.scroll_rows(old(g).theme, i as int),
            decreases shown - i,
        {
            let idx = self.viewport_start.1 + i;
            let len = self.content[idx].len();
            assert(v.lines[idx as int] == self.content@[idx as int]@);
            if start_col < len {
                let end = if len - start_col < cols { len } else { start_col + cols };
                self.draw_row(g, idx, start_col, end, i);
            }
            proof {
                assert(g.ops@ =~= old(g).ops@ + v.scroll_rows(old(g).theme, i + 1));
            }
            i = i + 1;
        }
    }

    /// Draw the text in `Wrap` mode, stopping when the grid is full.
    #[verifier::rlimit(40)]
    fn draw_with_x_wrapping(&self, g: &mut Graphics)
        requires
            self@.laid_out(),
            self@.overflow == XOverflowBehavior::Wrap,
        ensures
            final(g).same_surface(old(g)),
            final(g).ops@ == old(g).ops@ + self@.text_ops(old(g).theme),
    {
        let ghost v = self@;
        let ghost all = v.wrap_rows(v.shown_lines());
        let shown = self.shown_lines();
        let cols = self.dimensions_chars.0;
        let rows = self.dimensions_chars.1;
        let mut y: usize = 0;
        let mut i: usize = 0;
        proof {
            assert(old(g).ops@ + v.wrap_glyphs(old(g).theme, Seq::empty()) =~= old(g).ops@);
        }
        while i < shown
            invariant
                v == self@,
                self@.laid_out(),
                v.overflow == XOverflowBehavior::Wrap,
                all == v.wrap_rows(v.shown_lines()),
                shown as int == v.shown_lines(),
                v.viewport.1 + shown <= v.lines.len(),
                cols == v.grid.0,
                rows == v.grid.1,
                i <= shown,
                y as int == v.wrap_rows(i as int).len(),
                y <= rows,
                g.same_surface(old(g)),
                g.ops@ == old(g).ops@ + v.wrap_glyphs(old(g).theme, v.wrap_rows(i as int)),
            decreases shown - i,
        {
            let idx = self.viewport_start.1 + i;
            let ranges = wrap_line(&self.content[idx], cols);
            let ghost line = v.lines[idx as int];
            let ghost mapped = wrap_of(line, cols as int).map_values(|p: (int, int)| (idx as int, p.0, p.1));
            proof {
                assert(line == self.content@[idx as int]@);
                lemma_wrap_tiles(line, cols as int);
                assert(v.wrap_rows(i + 1) == v.wrap_rows(i as int) + mapped);
            }
            let mut k: usize = 0;
            while k < ranges.len()
                invariant
                    v == self@,
                    self@.laid_out(),
                    v.overflow == XOverflowBehavior::Wrap,
                    all == v.wrap_rows(v.shown_lines()),
                    shown as int == v.shown_lines(),
                    i < shown,
                    idx == v.viewport.1 + i,
                    idx < v.lines.len(),
                    line == v.lines[idx as int],
                    cols == v.grid.0,
                    rows == v.grid.1,
                    ranges_view(ranges@) == wrap_of(line, cols as int),
                    tiles(ranges_view(ranges@), line.len() as int, cols as int),
                    mapped == wrap_of(line, cols as int).map_values(|p: (int, int)| (idx as int, p.0, p.1)),
                    v.wrap_rows(i + 1) == v.wrap_rows(i as int) + mapped,
                    k <= ranges@.len(),
                    y as int == v.wrap_rows(i as int).len() + k,
                    y <= rows,
                    g.same_surface(old(g)),
                    g.ops@ == old(g).ops@ + v.wrap_glyphs(old(g).theme, v.wrap_rows(i as int) + mapped.take(k as int)),
                decreases ranges@.len() - k,
            {
                let ghost done = v.wrap_rows(i as int) + mapped.take(k as int);
                if y >= rows {
                    proof {
                        lemma_wrap_rows_prefix(v, i + 1, v.shown_lines());
                        let next = v.wrap_rows(i + 1);
                        assert(next.take(y as int) =~= done);
                        assert(all.take(y as int) =~= next.take(y as int));
                        assert(min_int(all.len() as int, rows as int) == rows);
                    }
                    return;
                }
                let (a, b) = ranges[k];
                proof {
                    let rv = ranges_view(ranges@);
                    assert(rv[k as int] == (a as int, b as int));
                    lemma_tiles_within(rv, line.len() as int, cols as int);
                }
                self.draw_row(g, idx, a, b, y);
                proof {
                    let pushed = done.push((idx as int, a as int, b as int));
                    assert(mapped[k as int] == (idx as int, a as int, b as int));
                    assert(v.wrap_rows(i as int) + mapped.take(k + 1) =~= pushed);
                    assert(pushed.drop_last() =~= done);
                }
                y = y + 1;
                k = k + 1;
            }
            proof {
                assert(mapped.take(ranges@.len() as int) =~= mapped);
            }
            i = i + 1;
        }
        proof {
            assert(all.take(min_int(all.len() as int, rows as int)) =~= all);
        }
    }

    /// Draw the area: its background and border (the focused border when
    /// `focused`), then the cursor and the text. Sizes the character grid
    /// from `g`'s font and moves the viewport to keep the cursor in view.
    pub fn draw(&mut self, g: &mut Graphics, focused: bool)
        requires
            old(self)@.wf(),
            old(self)@.drawable(old(g).surface()),
        ensures
            final(self)@ == old(self)@.drawn(old(g).surface()),
            final(self)@.wf(),
            final(self)@.drawable(old(g).surface()),
            final(g).same_surface(old(g)),
            final(g).ops@ == old(g).ops@ + old(self)@.drawn(old(g).surface()).render(old(g).theme, focused),
    {
        let ghost g0 = old(g).surface();
        let border = if focused {
            ColorType::BorderFocused
        } else {
            ColorType::BorderUnfocused
        };
        g.draw_rect(ColorType::Background, self.start, self.dimensions_px, Some(border));
        let ghost after_frame = g.ops@;
        let scale = g.theme.font_sizes.get(self.font_size);
        let cw = scale * g.font_width;
        let ch = scale * g.font_height;
        self.char_width = cw;
        self.char_height = ch;
        self.dimensions_chars = (self.dimensions_px.0 / cw, self.dimensions_px.1 / ch);
        assert(self@ == old(self)@.sized(g0));
        self.drag_viewport();
        proof {
            lemma_dragged_placed(old(self)@.sized(g0));
        }
        assert(self@ == old(self)@.drawn(g0));
        self.maybe_draw_cursor(g);
        match self.x_overflow {
            XOverflowBehavior::Wrap => self.draw_with_x_wrapping(g),
            XOverflowBehavior::Scroll => self.draw_with_x_scrolling(g),
        }
        proof {
            let d = old(self)@.drawn(g0);
            assert(after_frame == old(g).ops@.push(g0.theme.rect_op(ColorType::Background, d.start, d.dims_px, Some(border))));
            assert(g.ops@ =~= old(g).ops@ + d.render(g0.theme, focused));
        }
    }

    /// Handle a key: arrows move the cursor, printable characters are
    /// inserted, Enter splits the line, Backspace and Delete remove a
    /// character or join two lines. A key that changes anything redraws
    /// the area as focused. Always returns `UIResult::OK`.
    pub fn handle_key(&mut self, k: Key, g: &mut Graphics) -> (r: UIResult)
        requires
            old(self)@.wf(),
            old(self)@.drawable(old(g).surface()),
        ensures
            r == UIResult::OK,
            final(self)@.wf(),
            final(g).same_surface(old(g)),
            old(self)@.key_edit(k).2 ==> final(self)@ == old(self)@.edited(k).drawn(old(g).surface())
                && final(g).ops@ == old(g).ops@ + old(self)@.edited(k).drawn(old(g).surface()).render(old(g).theme, true),
            !old(self)@.key_edit(k).2 ==> final(self)@ == old(self)@ && final(g).ops@ == old(g).ops@,
    {
        let changed = self.apply_key(k);
        if changed {
            self.draw(g, true);
        }
        UIResult::OK
    }

    /// The cursor, as `(column, row)`.
    pub fn cursor(&self) -> (r: (usize, usize))
        ensures
            r == self@.cursor,
    {
        self.cursor
    }

    /// The first column and row shown.
    pub fn viewport(&self) -> (r: (usize, usize))
        ensures
            r == self@.viewport,
    {
        self.viewport_start
    }
}

} // verus!

use vstd::prelude::*;

use crate::app::{position_of, App, Focus};
use crate::model::{format_size, size_text, FileTree, NodeId, ScanError};
use crate::seqs::lemma_filter_push;
use crate::scanner::lemma_all_below_root;
use crate::text::{chars_of, decimal, join, join_strings, push_char, push_decimal, push_str, string_from_chars};

verus! {

/// A terminal rectangle in cells.
#[derive(Debug, Clone, Copy, PartialEq, Eq, Structural)]
pub struct Rect {
    pub x: u16,
    pub y: u16,
    pub width: u16,
    pub height: u16,
}

/// Colors (256-color palette indices) and attributes of a cell.
#[derive(Debug, Clone, Copy, PartialEq, Eq, Structural)]
pub struct Style {
    pub fg: Option<u8>,
    pub bg: Option<u8>,
    pub bold: bool,
    pub dim: bool,
}

impl Style {
    /// A style with the given colours and attributes.
    pub fn new(fg: Option<u8>, bg: Option<u8>, bold: bool, dim: bool) -> (r: Self)
        ensures
            r == (Style { fg, bg, bold, dim }),
    {
        Style { fg, bg, bold, dim }
    }

    /// Foreground colour `color`, nothing else.
    pub fn fg(color: u8) -> (r: Self)
        ensures
            r == (Style { fg: Some(color), bg: None, bold: false, dim: false }),
    {
        Self::new(Some(color), None, false, false)
    }

    /// Background colour `color`, nothing else.
    pub fn bg(color: u8) -> (r: Self)
        ensures
            r == (Style { fg: None, bg: Some(color), bold: false, dim: false }),
    {
        Self::new(None, Some(color), false, false)
    }

    /// The style in bold.
    pub fn bold(self) -> (r: Self)
        ensures
            r == (Style { bold: true, ..self }),
    {
        let mut s = self;
        s.bold = true;
        s
    }

    /// The style on background colour `color`.
    pub fn on_bg(self, color: u8) -> (r: Self)
        ensures
            r == (Style { bg: Some(color), ..self }),
    {
        let mut s = self;
        s.bg = Some(color);
        s
    }
}

/// One character cell of the screen.
#[derive(Debug, Clone, Copy, PartialEq, Eq, Structural)]
pub struct Cell {
    pub ch: char,
    pub style: Style,
}

/// The SGR parameters that select `style`, after a reset.
pub open spec fn sgr_codes(style: Style) -> Seq<Seq<char>> {
    seq!["0"@] + (if style.bold { seq!["1"@] } else { Seq::empty() }) + (if style.dim {
        seq!["2"@]
    } else {
        Seq::empty()
    }) + (match style.fg {
        Some(c) => seq!["38;5;"@ + decimal(c as nat)],
        None => Seq::empty(),
    }) + (match style.bg {
        Some(c) => seq!["48;5;"@ + decimal(c as nat)],
        None => Seq::empty(),
    })
}

/// The escape sequence that switches the terminal to `style`.
pub open spec fn ansi_text(style: Style) -> Seq<char> {
    "\x1b["@ + join(sgr_codes(style), ";"@) + "m"@
}

fn color_code(prefix: &str, color: u8) -> (r: String)
    ensures
        r@ == prefix@ + decimal(color as nat),
{
    let mut s = String::from_str(prefix);
    push_decimal(&mut s, color as u64);
    s
}

/// The escape sequence that switches the terminal to `style`.
pub fn ansi_style(style: Style) -> (r: String)
    ensures
        r@ == ansi_text(style),
{
    let mut codes: Vec<String> = Vec::new();
    codes.push(String::from_str("0"));
    let ghost mut expect: Seq<Seq<char>> = seq!["0"@];
    if style.bold {
        codes.push(String::from_str("1"));
        proof { expect = expect + seq!["1"@]; }
    }
    if style.dim {
        codes.push(String::from_str("2"));
        proof { expect = expect + seq!["2"@]; }
    }
    if let Some(fg) = style.fg {
        codes.push(color_code("38;5;", fg));
        proof { expect = expect + seq!["38;5;"@ + decimal(fg as nat)]; }
    }
    if let Some(bg) = style.bg {
        codes.push(color_code("48;5;", bg));
        proof { expect = expect + seq!["48;5;"@ + decimal(bg as nat)]; }
    }
    proof {
        assert(crate::text::views(codes@) =~= expect);
        assert(expect =~= sgr_codes(style));
    }
    let mut out = String::from_str("\x1b[");
    let joined = join_strings(&codes, ";");
    push_str(&mut out, joined.as_str());
    push_str(&mut out, "m");
    out
}

} // verus!

verus! {

/// A grid of `width` by `height` cells, row by row.
pub struct Canvas {
    width: u16,
    height: u16,
    cells: Vec<Cell>,
    default_style: Style,
}

/// What a cell shows: its character's code point and its style.
pub open spec fn shown(c: Cell) -> (int, Style) {
    (c.ch as int, c.style)
}

/// Sets the cell at (`x`, `y`) of a `w`-wide grid of `h` rows to character
/// code `code`; a position outside the grid changes nothing.
pub open spec fn put_cell(cells: Seq<(int, Style)>, w: nat, h: nat, x: nat, y: nat, code: int, style: Style) -> Seq<(int, Style)> {
    if x >= w || y >= h {
        cells
    } else {
        Seq::new(cells.len(), |i: int| if i == y * w + x { (code, style) } else { cells[i] })
    }
}

/// Writes `text` from (`x`, `y`) to the right, cut at the grid's right
/// edge; nothing is written from a position outside the grid.
pub open spec fn write_cells(cells: Seq<(int, Style)>, w: nat, h: nat, x: nat, y: nat, text: Seq<char>, style: Style) -> Seq<(int, Style)> {
    if y >= h || x >= w {
        cells
    } else {
        Seq::new(
            cells.len(),
            |i: int|
                if i / (w as int) == y && x <= i % (w as int) < x + text.len() {
                    (text[i % (w as int) - x] as int, style)
                } else {
                    cells[i]
                },
        )
    }
}

/// The cells of a grid after writing the first `n` characters of `text`
/// from (`x`, `y`).
pub open spec fn partly_written(start: Seq<(int, Style)>, w: nat, x: nat, y: nat, text: Seq<char>, style: Style, n: nat, i: int) -> (int, Style) {
    if i / (w as int) == y && x <= i % (w as int) < x + n {
        (text[i % (w as int) - x] as int, style)
    } else {
        start[i]
    }
}

proof fn lemma_write_step(
    start: Seq<(int, Style)>,
    before: Seq<(int, Style)>,
    w: nat,
    h: nat,
    x: nat,
    y: nat,
    n: nat,
    text: Seq<char>,
    style: Style,
)
    requires
        x + n < w,
        y < h,
        start.len() == w * h,
        before.len() == start.len(),
        n < text.len(),
        forall|i: int| 0 <= i < start.len() ==> #[trigger] before[i] == partly_written(start, w, x, y, text, style, n, i),
    ensures
        put_cell(before, w, h, x + n, y, text[n as int] as int, style).len() == start.len(),
        forall|i: int|
            0 <= i < start.len() ==> #[trigger] put_cell(before, w, h, x + n, y, text[n as int] as int, style)[i]
                == partly_written(start, w, x, y, text, style, n + 1, i),
{
    let after = put_cell(before, w, h, x + n, y, text[n as int] as int, style);
    let idx: int = (y * w + (x + n)) as int;
    assert(idx / (w as int) == y && idx % (w as int) == x + n) by (nonlinear_arith)
        requires
            idx == y * w + (x + n),
            x + n < w,
    ;
    assert forall|i: int| 0 <= i < start.len() implies #[trigger] after[i] == partly_written(start, w, x, y, text, style, n + 1, i) by {
        if i != idx {
            assert(after[i] == before[i]);
            if i / (w as int) == y && i % (w as int) == x + n {
                assert(i == (i / (w as int)) * (w as int) + i % (w as int)) by (nonlinear_arith)
                    requires
                        w > 0,
                ;
            }
        }
    }
}

impl Canvas {
    /// The cells, row by row.
    pub closed spec fn grid(&self) -> Seq<Cell> {
        self.cells@
    }

    /// What each cell shows, row by row.
    pub open spec fn screen(&self) -> Seq<(int, Style)> {
        self.grid().map_values(|c: Cell| shown(c))
    }

    /// The width in cells.
    pub closed spec fn w(&self) -> nat {
        self.width as nat
    }

    /// The height in cells.
    pub closed spec fn h(&self) -> nat {
        self.height as nat
    }

    /// The style that each row starts from.
    pub closed spec fn base_style(&self) -> Style {
        self.default_style
    }

    /// The canvas holds one cell per position.
    pub open spec fn wf(&self) -> bool {
        &&& self.grid().len() == self.w() * self.h()
        &&& self.w() * self.h() <= usize::MAX
    }

    /// `other` is this canvas with other cells.
    pub open spec fn same_frame(&self, other: &Canvas) -> bool {
        &&& other.w() == self.w()
        &&& other.h() == self.h()
        &&& other.base_style() == self.base_style()
    }

    /// A `width` by `height` canvas of blanks in `default_style`.
    pub fn new(width: u16, height: u16, default_style: Style) -> (c: Self)
        requires
            width * height <= usize::MAX,
        ensures
            c.wf(),
            c.w() == width,
            c.h() == height,
            c.base_style() == default_style,
            c.screen() == Seq::new((width * height) as nat, |i: int| (' ' as int, default_style)),
    {
        let n = width as usize * height as usize;
        let mut cells: Vec<Cell> = Vec::new();
        for i in 0..n
            invariant
                cells@ == Seq::new(i as nat, |j: int| Cell { ch: ' ', style: default_style }),
        {
            cells.push(Cell { ch: ' ', style: default_style });
            assert(cells@ =~= Seq::new((i + 1) as nat, |j: int| Cell { ch: ' ', style: default_style }));
        }
        let c = Canvas { width, height, cells, default_style };
        assert(c.screen() =~= Seq::new((width * height) as nat, |i: int| (' ' as int, default_style)));
        c
    }

    /// Sets one cell; positions outside the canvas are ignored.
    pub fn put(&mut self, x: u16, y: u16, ch: char, style: Style)
        requires
            old(self).wf(),
        ensures
            final(self).wf(),
            old(self).same_frame(final(self)),
            final(self).screen() == put_cell(old(self).screen(), old(self).w(), old(self).h(), x as nat, y as nat, ch as int, style),
    {
        if x >= self.width || y >= self.height {
            return;
        }
        proof {
            let w = self.width as int;
            let h = self.height as int;
            assert(y * w + x < w * h) by (nonlinear_arith)
                requires
                    0 <= x < w,
                    0 <= y < h,
            ;
            assert(y * w <= y * w + x);
        }
        let index = y as usize * self.width as usize + x as usize;
        let ghost before = self.screen();
        self.cells.set(index, Cell { ch, style });
        assert(self.screen() =~= put_cell(before, self.width as nat, self.height as nat, x as nat, y as nat, ch as int, style));
    }

    /// Writes `text` from (`x`, `y`) rightwards, cut at the right edge.
    pub fn write(&mut self, x: u16, y: u16, text: &str, style: Style)
        requires
            old(self).wf(),
        ensures
            final(self).wf(),
            old(self).same_frame(final(self)),
            final(self).screen() == write_cells(old(self).screen(), old(self).w(), old(self).h(), x as nat, y as nat, text@, style),
    {
        if y >= self.height || x >= self.width {
            return;
        }
        let chars = chars_of(text);
        let ghost start = self.screen();
        let ghost w = self.width as int;
        let limit = (self.width - x) as usize;
        let count = if chars.len() < limit { chars.len() } else { limit };
        let mut offset: usize = 0;
        while offset < count
            invariant
                self.wf(),
                self.width == w,
                y < self.height,
                x < self.width,
                limit == w - x,
                count <= limit,
                count <= chars@.len(),
                chars@ == text@,
                offset <= count,
                self.screen().len() == start.len(),
                start.len() == w * self.height,
                self.default_style == old(self).default_style,
                self.height == old(self).height,
                forall|i: int| 0 <= i < start.len() ==> #[trigger] self.screen()[i] == partly_written(start, w as nat, x as nat, y as nat, text@, style, offset as nat, i),
            decreases count - offset,
        {
            let ghost before = self.screen();
            assert((offset as u16) as int == offset);
            self.put(x + offset as u16, y, chars[offset], style);
            proof {
                lemma_write_step(start, before, w as nat, self.height as nat, x as nat, y as nat, offset as nat, text@, style);
            }
            offset = offset + 1;
        }
        proof {
            let target = write_cells(start, w as nat, self.height as nat, x as nat, y as nat, text@, style);
            assert forall|i: int| 0 <= i < start.len() implies #[trigger] self.screen()[i] == target[i] by {
                assert(0 <= i % w < w) by (nonlinear_arith)
                    requires
                        w > 0,
                ;
                if i / w == y && x <= i % w {
                    if count == limit {
                        assert(i % w < x + offset);
                    }
                }
            }
            assert(self.screen() =~= target);
        }
    }
}


/// One cell as printed: the escape sequence for its style when that differs
/// from the style before it, then its character.
pub open spec fn cell_text(prev: Style, cell: (int, Style)) -> Seq<char> {
    (if cell.1 != prev { ansi_text(cell.1) } else { Seq::empty() }).push(cell.0 as char)
}

/// A row of cells as printed, starting from style `start`.
pub open spec fn row_text(cells: Seq<(int, Style)>, start: Style) -> Seq<char>
    decreases cells.len(),
{
    if cells.len() == 0 {
        Seq::empty()
    } else {
        let prev = if cells.len() == 1 {
            start
        } else {
            cells[cells.len() - 2].1
        };
        row_text(cells.drop_last(), start) + cell_text(prev, cells.last())
    }
}

/// The first `k` rows as printed; each ends with a reset, and all but the
/// last row are followed by a line break and the default style.
pub open spec fn rows_text(screen: Seq<(int, Style)>, w: nat, h: nat, d: Style, k: nat) -> Seq<char>
    decreases k,
{
    if k == 0 {
        Seq::empty()
    } else {
        rows_text(screen, w, h, d, (k - 1) as nat) + row_text(screen.subrange((k - 1) * w, (k * w) as int), d)
            + "\x1b[0m"@ + (if k < h { "\r\n"@ + ansi_text(d) } else { Seq::empty() })
    }
}

/// The whole canvas as printed to a terminal.
pub open spec fn frame_text(screen: Seq<(int, Style)>, w: nat, h: nat, d: Style) -> Seq<char> {
    ansi_text(d) + rows_text(screen, w, h, d, h) + "\x1b[0m"@
}

impl Canvas {
    /// The text that draws the canvas on a terminal.
    pub fn finish(self) -> (r: String)
        requires
            self.wf(),
        ensures
            r@ == frame_text(self.screen(), self.w(), self.h(), self.base_style()),
    {
        let ghost scr = self.screen();
        let ghost w = self.width as nat;
        let ghost h = self.height as nat;
        let mut output = String::new();
        let mut current = self.default_style;
        let first = ansi_style(current);
        push_str(&mut output, first.as_str());
        let mut y: u16 = 0;
        while y < self.height
            invariant
                self.wf(),
                scr == self.screen(),
                w == self.width,
                h == self.height,
                y <= self.height,
                current == self.default_style,
                output@ == ansi_text(self.default_style) + rows_text(scr, w, h, self.default_style, y as nat),
            decreases self.height - y,
        {
            let ghost before_row = output@;
            proof {
                assert(y * w + w <= w * h) by (nonlinear_arith)
                    requires
                        y < h,
                ;
                assert(scr.subrange(y * w, (y * w + 0) as int) =~= Seq::<(int, Style)>::empty());
            }
            let mut x: u16 = 0;
            while x < self.width
                invariant
                    self.wf(),
                    scr == self.screen(),
                    w == self.width,
                    h == self.height,
                    y < self.height,
                    x <= self.width,
                    current == (if x == 0 { self.default_style } else { scr[(y * w + x - 1) as int].1 }),
                    output@ == before_row + row_text(scr.subrange(y * w, (y * w + x) as int), self.default_style),
                decreases self.width - x,
            {
                proof {
                    let wi = w as int;
                    assert(y * wi + x < wi * h) by (nonlinear_arith)
                        requires
                            0 <= x < wi,
                            0 <= y < h,
                    ;
                    assert(y * wi <= y * wi + x);
                }
                let index = y as usize * self.width as usize + x as usize;
                let cell = self.cells[index];
                let ghost piece = cell_text(current, shown(cell));
                if cell.style != current {
                    let code = ansi_style(cell.style);
                    push_str(&mut output, code.as_str());
                    current = cell.style;
                }
                push_char(&mut output, cell.ch);
                proof {
                    let row = scr.subrange(y * w, (y * w + x + 1) as int);
                    assert(scr[index as int] == shown(cell));
                    assert(row.drop_last() =~= scr.subrange(y * w, (y * w + x) as int));
                    assert(row.last() == scr[index as int]);
                    if x > 0 {
                        assert(row[row.len() - 2] == scr[(y * w + x - 1) as int]);
                    }
                    assert(output@ =~= before_row + row_text(row, self.default_style));
                }
                x = x + 1;
            }
            push_str(&mut output, "\x1b[0m");
            current = self.default_style;
            if y + 1 < self.height {
                push_str(&mut output, "\r\n");
                let again = ansi_style(current);
                push_str(&mut output, again.as_str());
            }
            proof {
                assert((y + 1) * w == y * w + w) by (nonlinear_arith);
                assert(output@ =~= ansi_text(self.default_style) + rows_text(scr, w, h, self.default_style, (y + 1) as nat));
            }
            y = y + 1;
        }
        push_str(&mut output, "\x1b[0m");
        output
    }
}


/// The cells of a `w`-wide grid where `f` gives a new look by column and
/// row; where it gives none the cell keeps its old look.
pub open spec fn paint_region(s: Seq<(int, Style)>, w: nat, f: spec_fn(int, int) -> Option<(int, Style)>) -> Seq<(int, Style)> {
    Seq::new(
        s.len(),
        |i: int|
            match f(i % (w as int), i / (w as int)) {
                Some(v) => v,
                None => s[i],
            },
    )
}

/// Putting one cell on top of a painted region extends the painting by
/// that cell (a cell outside the grid is no cell of it).
proof fn lemma_put_paint(
    s: Seq<(int, Style)>,
    w: nat,
    h: nat,
    f: spec_fn(int, int) -> Option<(int, Style)>,
    g: spec_fn(int, int) -> Option<(int, Style)>,
    x: nat,
    y: nat,
    code: int,
    style: Style,
)
    requires
        s.len() == w * h,
        forall|c: int, r: int| #[trigger] g(c, r) == (if c == x && r == y { Some((code, style)) } else { f(c, r) }),
    ensures
        put_cell(paint_region(s, w, f), w, h, x, y, code, style) == paint_region(s, w, g),
{
    let a = put_cell(paint_region(s, w, f), w, h, x, y, code, style);
    let b = paint_region(s, w, g);
    assert forall|i: int| 0 <= i < s.len() implies #[trigger] a[i] == b[i] by {
        let wi = w as int;
        assert(0 <= i % wi < wi && i / wi < h) by (nonlinear_arith)
            requires
                0 <= i < w * h,
                wi == w,
        ;
        if x < w && y < h {
            assert((y * w + x == i) <==> (i % wi == x && i / wi == y)) by (nonlinear_arith)
                requires
                    0 <= i,
                    x < w,
                    wi == w,
            {
                if i % wi == x && i / wi == y {
                    assert(i == (i / wi) * wi + i % wi);
                }
                if y * w + x == i {
                    assert(((y * w + x) as int) / wi == y);
                    assert(((y * w + x) as int) % wi == x);
                }
            }
        }
        assert(g(i % wi, i / wi) == (if i % wi == x && i / wi == y { Some((code, style)) } else { f(i % wi, i / wi) }));
    }
    assert(a =~= b);
}

/// Putting a cell outside the grid changes nothing.
proof fn lemma_paint_nothing(s: Seq<(int, Style)>, w: nat, f: spec_fn(int, int) -> Option<(int, Style)>)
    requires
        forall|c: int, r: int| #[trigger] f(c, r) == None::<(int, Style)>,
    ensures
        paint_region(s, w, f) == s,
{
    assert(paint_region(s, w, f) =~= s);
}

/// The cells of the span `x0 <= column < x1`, `y0 <= row < y1` set to
/// (`code`, `style`).
pub open spec fn span(x0: int, x1: int, y0: int, y1: int, code: int, style: Style) -> spec_fn(int, int) -> Option<(int, Style)> {
    |c: int, r: int| if x0 <= c < x1 && y0 <= r < y1 { Some((code, style)) } else { None }
}

/// `a + b` capped at the largest `u16`.
pub open spec fn sat_add(a: int, b: int) -> int {
    if a + b > 0xffff { 0xffff } else { a + b }
}

/// A fill of rows `y0..y` from column `x0` to `x1`, and of row `y` up to
/// column `x`.
pub open spec fn fill_progress(x0: int, x1: int, y0: int, y: int, x: int, code: int, style: Style) -> spec_fn(int, int) -> Option<(int, Style)> {
    |c: int, r: int| if (x0 <= c < x1 && y0 <= r < y) || (x0 <= c < x && r == y) { Some((code, style)) } else { None }
}

/// Fills `area` (cut where its end would pass the largest coordinate) with
/// `ch` in `style`.
fn fill_rect(canvas: &mut Canvas, area: Rect, ch: char, style: Style)
    requires
        old(canvas).wf(),
    ensures
        final(canvas).wf(),
        old(canvas).same_frame(final(canvas)),
        final(canvas).screen() == paint_region(old(canvas).screen(), old(canvas).w(), span(
            area.x as int,
            sat_add(area.x as int, area.width as int),
            area.y as int,
            sat_add(area.y as int, area.height as int),
            ch as int,
            style,
        )),
{
    let ghost s0 = canvas.screen();
    let ghost w = canvas.w();
    let ghost h = canvas.h();
    let x_end = area.x.saturating_add(area.width);
    let y_end = area.y.saturating_add(area.height);
    let ghost code = ch as int;
    proof {
        lemma_paint_nothing(s0, w, span(area.x as int, x_end as int, area.y as int, area.y as int, code, style));
    }
    let mut y = area.y;
    while y < y_end
        invariant
            canvas.wf(),
            s0.len() == w * h,
            canvas.w() == w,
            canvas.h() == h,
            old(canvas).same_frame(canvas),
            area.y <= y <= y_end,
            code == ch as int,
            x_end == sat_add(area.x as int, area.width as int),
            y_end == sat_add(area.y as int, area.height as int),
            canvas.screen() == paint_region(s0, w, span(area.x as int, x_end as int, area.y as int, y as int, code, style)),
        decreases y_end - y,
    {
        let mut x = area.x;
        proof {
            assert(paint_region(s0, w, span(area.x as int, x_end as int, area.y as int, y as int, code, style))
                =~= paint_region(s0, w, fill_progress(area.x as int, x_end as int, area.y as int, y as int, x as int, code, style)));
        }
        while x < x_end
            invariant
                canvas.wf(),
                s0.len() == w * h,
                canvas.w() == w,
                canvas.h() == h,
                old(canvas).same_frame(canvas),
                area.y <= y < y_end,
                area.x <= x <= x_end,
                code == ch as int,
                x_end == sat_add(area.x as int, area.width as int),
                canvas.screen() == paint_region(s0, w, fill_progress(area.x as int, x_end as int, area.y as int, y as int, x as int, code, style)),
            decreases x_end - x,
        {
            let ghost f = fill_progress(area.x as int, x_end as int, area.y as int, y as int, x as int, code, style);
            let ghost g = fill_progress(area.x as int, x_end as int, area.y as int, y as int, x + 1, code, style);
            let ghost before = canvas.screen();
            canvas.put(x, y, ch, style);
            proof {
                lemma_put_paint(s0, w, h, f, g, x as nat, y as nat, code, style);
            }
            x = x + 1;
        }
        proof {
            assert(paint_region(s0, w, fill_progress(area.x as int, x_end as int, area.y as int, y as int, x as int, code, style))
                =~= paint_region(s0, w, span(area.x as int, x_end as int, area.y as int, y + 1, code, style)));
        }
        y = y + 1;
    }
}


/// Draws a horizontal rule of `width` cells from (`x`, `y`).
fn draw_hline(canvas: &mut Canvas, x: u16, y: u16, width: u16, style: Style)
    requires
        old(canvas).wf(),
        x + width <= 0x10000,
    ensures
        final(canvas).wf(),
        old(canvas).same_frame(final(canvas)),
        final(canvas).screen() == paint_region(old(canvas).screen(), old(canvas).w(), span(
            x as int,
            x + width,
            y as int,
            y + 1,
            '─' as int,
            style,
        )),
{
    let ghost s0 = canvas.screen();
    let ghost w = canvas.w();
    let ghost h = canvas.h();
    proof {
        lemma_paint_nothing(s0, w, span(x as int, x as int, y as int, y + 1, '─' as int, style));
    }
    let mut offset: u16 = 0;
    while offset < width
        invariant
            canvas.wf(),
            s0.len() == w * h,
            canvas.w() == w,
            canvas.h() == h,
            old(canvas).same_frame(canvas),
            offset <= width,
            x + width <= 0x10000,
            canvas.screen() == paint_region(s0, w, span(x as int, x + offset, y as int, y + 1, '─' as int, style)),
        decreases width - offset,
    {
        canvas.put(x + offset, y, '─', style);
        proof {
            lemma_put_paint(
                s0,
                w,
                h,
                span(x as int, x + offset, y as int, y + 1, '─' as int, style),
                span(x as int, x + offset + 1, y as int, y + 1, '─' as int, style),
                (x + offset) as nat,
                y as nat,
                '─' as int,
                style,
            );
        }
        offset = offset + 1;
    }
}

/// Draws a vertical rule of `height` cells from (`x`, `y`).
fn draw_vline(canvas: &mut Canvas, x: u16, y: u16, height: u16, style: Style)
    requires
        old(canvas).wf(),
        y + height <= 0x10000,
    ensures
        final(canvas).wf(),
        old(canvas).same_frame(final(canvas)),
        final(canvas).screen() == paint_region(old(canvas).screen(), old(canvas).w(), span(
            x as int,
            x + 1,
            y as int,
            y + height,
            '│' as int,
            style,
        )),
{
    let ghost s0 = canvas.screen();
    let ghost w = canvas.w();
    let ghost h = canvas.h();
    proof {
        lemma_paint_nothing(s0, w, span(x as int, x + 1, y as int, y as int, '│' as int, style));
    }
    let mut offset: u16 = 0;
    while offset < height
        invariant
            canvas.wf(),
            s0.len() == w * h,
            canvas.w() == w,
            canvas.h() == h,
            old(canvas).same_frame(canvas),
            offset <= height,
            y + height <= 0x10000,
            canvas.screen() == paint_region(s0, w, span(x as int, x + 1, y as int, y + offset, '│' as int, style)),
        decreases height - offset,
    {
        canvas.put(x, y + offset, '│', style);
        proof {
            lemma_put_paint(
                s0,
                w,
                h,
                span(x as int, x + 1, y as int, y + offset, '│' as int, style),
                span(x as int, x + 1, y as int, y + offset + 1, '│' as int, style),
                x as nat,
                (y + offset) as nat,
                '│' as int,
                style,
            );
        }
        offset = offset + 1;
    }
}


/// The painting `f` with the cell (`x`, `y`) set to (`code`, `style`).
pub open spec fn with_cell(f: spec_fn(int, int) -> Option<(int, Style)>, x: int, y: int, code: int, style: Style) -> spec_fn(int, int) -> Option<(int, Style)> {
    |c: int, r: int| if c == x && r == y { Some((code, style)) } else { f(c, r) }
}

proof fn lemma_put_with(s: Seq<(int, Style)>, w: nat, h: nat, f: spec_fn(int, int) -> Option<(int, Style)>, x: nat, y: nat, code: int, style: Style)
    requires
        s.len() == w * h,
    ensures
        put_cell(paint_region(s, w, f), w, h, x, y, code, style) == paint_region(s, w, with_cell(f, x as int, y as int, code, style)),
{
    lemma_put_paint(s, w, h, f, with_cell(f, x as int, y as int, code, style), x, y, code, style);
}

/// Two paintings that agree on every cell give the same grid.
proof fn lemma_paint_ext(s: Seq<(int, Style)>, w: nat, f: spec_fn(int, int) -> Option<(int, Style)>, g: spec_fn(int, int) -> Option<(int, Style)>)
    requires
        w > 0 || s.len() == 0,
        forall|c: int, r: int| 0 <= c < w && 0 <= r ==> #[trigger] f(c, r) == g(c, r),
    ensures
        paint_region(s, w, f) == paint_region(s, w, g),
{
    assert forall|i: int| 0 <= i < s.len() implies #[trigger] paint_region(s, w, f)[i] == paint_region(s, w, g)[i] by {
        if w > 0 {
            let wi = w as int;
            assert(0 <= i % wi < wi && 0 <= i / wi) by (nonlinear_arith)
                requires
                    0 <= i,
                    wi == w,
                    w > 0,
            ;
        }
    }
    assert(paint_region(s, w, f) =~= paint_region(s, w, g));
}

/// A box border: corners `┌┐└┘`, sides `│`, top and bottom `─`.
pub open spec fn border(x0: int, x1: int, y0: int, y1: int, style: Style) -> spec_fn(int, int) -> Option<(int, Style)> {
    |c: int, r: int|
        if c == x0 && r == y0 {
            Some(('┌' as int, style))
        } else if c == x1 && r == y0 {
            Some(('┐' as int, style))
        } else if c == x0 && r == y1 {
            Some(('└' as int, style))
        } else if c == x1 && r == y1 {
            Some(('┘' as int, style))
        } else if (c == x0 || c == x1) && y0 <= r <= y1 {
            Some(('│' as int, style))
        } else if (r == y0 || r == y1) && x0 <= c <= x1 {
            Some(('─' as int, style))
        } else {
            None
        }
}

/// Top and bottom rules drawn up to `xt` and `xb`.
pub open spec fn border_rows(x0: int, xt: int, xb: int, y0: int, y1: int, style: Style) -> spec_fn(int, int) -> Option<(int, Style)> {
    |c: int, r: int|
        if (r == y0 && x0 <= c < xt) || (r == y1 && x0 <= c < xb) {
            Some(('─' as int, style))
        } else {
            None
        }
}

/// Full top and bottom rules, with the sides drawn down to `yl` and `yr`.
pub open spec fn border_sides(x0: int, x1: int, y0: int, y1: int, yl: int, yr: int, style: Style) -> spec_fn(int, int) -> Option<(int, Style)> {
    |c: int, r: int|
        if (c == x0 && y0 <= r < yl) || (c == x1 && y0 <= r < yr) {
            Some(('│' as int, style))
        } else if (r == y0 || r == y1) && x0 <= c <= x1 {
            Some(('─' as int, style))
        } else {
            None
        }
}

/// Draws a box border around `area`; areas under two cells across do
/// nothing.
fn outline(canvas: &mut Canvas, area: Rect, style: Style)
    requires
        old(canvas).wf(),
        area.x + area.width <= 0xffff,
        area.y + area.height <= 0xffff,
    ensures
        final(canvas).wf(),
        old(canvas).same_frame(final(canvas)),
        final(canvas).screen() == (if area.width < 2 || area.height < 2 {
            old(canvas).screen()
        } else {
            paint_region(old(canvas).screen(), old(canvas).w(), border(
                area.x as int,
                area.x + area.width - 1,
                area.y as int,
                area.y + area.height - 1,
                style,
            ))
        }),
{
    if area.width < 2 || area.height < 2 {
        return;
    }
    let ghost s0 = canvas.screen();
    let ghost w = canvas.w();
    let ghost h = canvas.h();
    let right = area.x + area.width - 1;
    let bottom = area.y + area.height - 1;
    let ghost hz = '─' as int;
    let ghost vt = '│' as int;
    proof {
        assert(s0.len() == w * h);
        assert(w > 0 || w * h == 0) by (nonlinear_arith);
        lemma_paint_ext(s0, w, |c: int, r: int| None, border_rows(area.x as int, area.x as int, area.x as int, area.y as int, bottom as int, style));
        lemma_paint_nothing(s0, w, |c: int, r: int| None);
    }
    let mut x = area.x;
    while x <= right
        invariant
            canvas.wf(),
            s0.len() == w * h,
            canvas.w() == w,
            canvas.h() == h,
            old(canvas).same_frame(canvas),
            area.x <= x <= right + 1,
            right == area.x + area.width - 1,
            bottom == area.y + area.height - 1,
            area.y < bottom,
            right < 0xffff,
            w > 0 || s0.len() == 0,
            hz == '─' as int,
            canvas.screen() == paint_region(s0, w, border_rows(area.x as int, x as int, x as int, area.y as int, bottom as int, style)),
        decreases right + 1 - x,
    {
        let ghost f0 = border_rows(area.x as int, x as int, x as int, area.y as int, bottom as int, style);
        canvas.put(x, area.y, '─', style);
        proof {
            lemma_put_with(s0, w, h, f0, x as nat, area.y as nat, hz, style);
            lemma_paint_ext(s0, w, with_cell(f0, x as int, area.y as int, hz, style), border_rows(area.x as int, x + 1, x as int, area.y as int, bottom as int, style));
        }
        let ghost f1 = border_rows(area.x as int, x + 1, x as int, area.y as int, bottom as int, style);
        canvas.put(x, bottom, '─', style);
        proof {
            lemma_put_with(s0, w, h, f1, x as nat, bottom as nat, hz, style);
            lemma_paint_ext(s0, w, with_cell(f1, x as int, bottom as int, hz, style), border_rows(area.x as int, x + 1, x + 1, area.y as int, bottom as int, style));
        }
        x = x + 1;
    }
    proof {
        lemma_paint_ext(s0, w, border_rows(area.x as int, right + 1, right + 1, area.y as int, bottom as int, style),
            border_sides(area.x as int, right as int, area.y as int, bottom as int, area.y as int, area.y as int, style));
    }
    let mut y = area.y;
    while y <= bottom
        invariant
            canvas.wf(),
            s0.len() == w * h,
            canvas.w() == w,
            canvas.h() == h,
            old(canvas).same_frame(canvas),
            area.y <= y <= bottom + 1,
            right == area.x + area.width - 1,
            bottom == area.y + area.height - 1,
            area.x < right,
            bottom < 0xffff,
            w > 0 || s0.len() == 0,
            vt == '│' as int,
            canvas.screen() == paint_region(s0, w, border_sides(area.x as int, right as int, area.y as int, bottom as int, y as int, y as int, style)),
        decreases bottom + 1 - y,
    {
        let ghost f0 = border_sides(area.x as int, right as int, area.y as int, bottom as int, y as int, y as int, style);
        canvas.put(area.x, y, '│', style);
        proof {
            lemma_put_with(s0, w, h, f0, area.x as nat, y as nat, vt, style);
            lemma_paint_ext(s0, w, with_cell(f0, area.x as int, y as int, vt, style), border_sides(area.x as int, right as int, area.y as int, bottom as int, y + 1, y as int, style));
        }
        let ghost f1 = border_sides(area.x as int, right as int, area.y as int, bottom as int, y + 1, y as int, style);
        canvas.put(right, y, '│', style);
        proof {
            lemma_put_with(s0, w, h, f1, right as nat, y as nat, vt, style);
            lemma_paint_ext(s0, w, with_cell(f1, right as int, y as int, vt, style), border_sides(area.x as int, right as int, area.y as int, bottom as int, y + 1, y + 1, style));
        }
        y = y + 1;
    }
    let ghost g0 = border_sides(area.x as int, right as int, area.y as int, bottom as int, bottom + 1, bottom + 1, style);
    canvas.put(area.x, area.y, '┌', style);
    proof { lemma_put_with(s0, w, h, g0, area.x as nat, area.y as nat, '┌' as int, style); }
    let ghost g1 = with_cell(g0, area.x as int, area.y as int, '┌' as int, style);
    canvas.put(right, area.y, '┐', style);
    proof { lemma_put_with(s0, w, h, g1, right as nat, area.y as nat, '┐' as int, style); }
    let ghost g2 = with_cell(g1, right as int, area.y as int, '┐' as int, style);
    canvas.put(area.x, bottom, '└', style);
    proof { lemma_put_with(s0, w, h, g2, area.x as nat, bottom as nat, '└' as int, style); }
    let ghost g3 = with_cell(g2, area.x as int, bottom as int, '└' as int, style);
    canvas.put(right, bottom, '┘', style);
    proof {
        lemma_put_with(s0, w, h, g3, right as nat, bottom as nat, '┘' as int, style);
        let g4 = with_cell(g3, right as int, bottom as int, '┘' as int, style);
        lemma_paint_ext(s0, w, g4, border(area.x as int, right as int, area.y as int, bottom as int, style));
    }
}


/// Background of the screen.
pub const BG: u8 = 235;
/// Background of panels.
pub const PANEL: u8 = 237;
/// Lines and pills on panels.
pub const PANEL_2: u8 = 238;
/// Body text.
pub const TEXT: u8 = 252;
/// Secondary text.
pub const MUTED: u8 = 244;
/// Hints.
pub const FAINT: u8 = 240;
/// Background of the selection.
pub const SELECTED: u8 = 220;
/// Text on the selection.
pub const SELECTED_TEXT: u8 = 235;
/// Titles.
pub const WHITE: u8 = 255;

/// What one character cell shows for two stacked half-cell colors: a blank
/// in the shared color, an upper or lower half block over the background,
/// or nothing when both halves are empty.
pub open spec fn half_block(upper: Option<u8>, lower: Option<u8>) -> Option<(int, Style)> {
    match (upper, lower) {
        (None, None) => None,
        (Some(u), Some(l)) => if u == l {
            Some((' ' as int, Style { fg: None, bg: Some(u), bold: false, dim: false }))
        } else {
            Some(('▀' as int, Style { fg: Some(u), bg: Some(l), bold: false, dim: false }))
        },
        (Some(u), None) => Some(('▀' as int, Style { fg: Some(u), bg: Some(BG), bold: false, dim: false })),
        (None, Some(l)) => Some(('▄' as int, Style { fg: Some(l), bg: Some(BG), bold: false, dim: false })),
    }
}

/// The grid after drawing one half-block cell at (`x`, `y`).
pub open spec fn half_block_cells(s: Seq<(int, Style)>, w: nat, h: nat, x: nat, y: nat, upper: Option<u8>, lower: Option<u8>) -> Seq<(int, Style)> {
    match half_block(upper, lower) {
        Some(v) => put_cell(s, w, h, x, y, v.0, v.1),
        None => s,
    }
}

/// Draws a cell showing two stacked colors.
pub fn put_half_block(canvas: &mut Canvas, x: u16, y: u16, upper: Option<u8>, lower: Option<u8>)
    requires
        old(canvas).wf(),
    ensures
        final(canvas).wf(),
        old(canvas).same_frame(final(canvas)),
        final(canvas).screen() == half_block_cells(old(canvas).screen(), old(canvas).w(), old(canvas).h(), x as nat, y as nat, upper, lower),
{
    match (upper, lower) {
        (None, None) => {},
        (Some(color), Some(other)) => {
            if color == other {
                canvas.put(x, y, ' ', Style::bg(color));
            } else {
                canvas.put(x, y, '▀', Style::fg(color).on_bg(other));
            }
        },
        (Some(u), None) => {
            canvas.put(x, y, '▀', Style::fg(u).on_bg(BG));
        },
        (None, Some(l)) => {
            canvas.put(x, y, '▄', Style::fg(l).on_bg(BG));
        },
    }
}

/// `value` cut to `width` characters, the last kept one replaced by a dot.
pub open spec fn truncated(value: Seq<char>, width: nat) -> Seq<char> {
    if width == 0 {
        Seq::empty()
    } else if value.len() <= width {
        value
    } else if width <= 1 {
        "."@
    } else {
        value.take(width - 1) + "."@
    }
}

/// Cuts `value` to at most `width` characters, marking a cut with a dot.
pub fn truncate(value: &str, width: usize) -> (r: String)
    ensures
        r@ == truncated(value@, width as nat),
{
    if width == 0 {
        return String::new();
    }
    let chars = chars_of(value);
    if chars.len() <= width {
        String::from_str(value)
    } else if width <= 1 {
        String::from_str(".")
    } else {
        let mut kept: Vec<char> = Vec::new();
        let mut i: usize = 0;
        while i < width - 1
            invariant
                i <= width - 1,
                width - 1 < chars@.len(),
                kept@ == chars@.take(i as int),
            decreases width - 1 - i,
        {
            kept.push(chars[i]);
            assert(chars@.take(i + 1) =~= chars@.take(i as int).push(chars@[i as int]));
            i = i + 1;
        }
        let mut out = string_from_chars(&kept);
        push_str(&mut out, ".");
        out
    }
}

/// `a - b`, or 0 when `b` is larger.
pub open spec fn sat_sub(a: int, b: int) -> int {
    if a > b { a - b } else { 0 }
}

impl Canvas {
    /// Writes `text` so that it ends just before column `right_x`.
    pub fn write_right(&mut self, right_x: u16, y: u16, text: &str, style: Style)
        requires
            old(self).wf(),
        ensures
            final(self).wf(),
            old(self).same_frame(final(self)),
            final(self).screen() == write_cells(
                old(self).screen(),
                old(self).w(),
                old(self).h(),
                sat_sub(right_x as int, text@.len() as int % 0x10000) as nat,
                y as nat,
                text@,
                style,
            ),
    {
        let count = text.unicode_len();
        let width = (count % 0x10000) as u16;
        let x = right_x.saturating_sub(width);
        self.write(x, y, text, style);
    }
}

/// `label` padded with one space on each side.
pub open spec fn pill_text(label: Seq<char>) -> Seq<char> {
    " "@ + label + " "@
}

fn draw_pill(canvas: &mut Canvas, x: u16, y: u16, label: &str, style: Style)
    requires
        old(canvas).wf(),
    ensures
        final(canvas).wf(),
        old(canvas).same_frame(final(canvas)),
        final(canvas).screen() == write_cells(old(canvas).screen(), old(canvas).w(), old(canvas).h(), x as nat, y as nat, pill_text(label@), style),
{
    let mut text = String::from_str(" ");
    push_str(&mut text, label);
    push_str(&mut text, " ");
    canvas.write(x, y, text.as_str(), style);
}

/// Which slice of `len` list entries a list of `limit` rows shows, as
/// (start, end): centred on the selection where it can be, with a row kept
/// for each "more above" and "more below" marker when the list overflows.
pub open spec fn list_window(len: int, selected: int, limit: int) -> (int, int) {
    if len == 0 || limit == 0 {
        (0, 0)
    } else {
        let reserve_top: int = if selected > 0 && len > limit { 1 } else { 0 };
        let reserve_bottom: int = if selected + 1 < len && len > limit { 1 } else { 0 };
        let visible = if sat_sub(limit, reserve_top + reserve_bottom) > 1 { sat_sub(limit, reserve_top + reserve_bottom) } else { 1 };
        let half = visible / 2;
        let max_start = sat_sub(len, visible);
        let start = if sat_sub(selected, half) < max_start { sat_sub(selected, half) } else { max_start };
        let end = if start + visible < len { start + visible } else { len };
        (start, end)
    }
}

/// The list rows to show for `len` entries with the given selection and
/// row limit.
fn visible_list_window(len: usize, selected_index: usize, list_limit: usize) -> (r: (usize, usize))
    ensures
        (r.0 as int, r.1 as int) == list_window(len as int, selected_index as int, list_limit as int),
        r.0 <= r.1 <= len,
{
    if len == 0 || list_limit == 0 {
        return (0, 0);
    }
    let reserve_top: usize = if selected_index > 0 && len > list_limit { 1 } else { 0 };
    let reserve_bottom: usize = if selected_index < len - 1 && len > list_limit { 1 } else { 0 };
    let visible_limit = {
        let v = list_limit.saturating_sub(reserve_top + reserve_bottom);
        if v > 1 { v } else { 1 }
    };
    let half_window = visible_limit / 2;
    let max_start = len.saturating_sub(visible_limit);
    let from_selection = selected_index.saturating_sub(half_window);
    let start = if from_selection < max_start { from_selection } else { max_start };
    let stop = start + visible_limit;
    let end = if stop < len { stop } else { len };
    (start, end)
}

/// The window always contains the selection when there is one, holds at
/// most the rows allowed (at least one), and shows the whole list when it
/// fits.
pub proof fn lemma_list_window(len: int, selected: int, limit: int)
    requires
        0 <= selected < len,
        limit > 0,
    ensures
        list_window(len, selected, limit).0 <= selected < list_window(len, selected, limit).1,
        list_window(len, selected, limit).1 - list_window(len, selected, limit).0 <= limit,
        len <= limit ==> list_window(len, selected, limit) == (0int, len),
{
}


/// A style from its parts.
pub open spec fn sty(fg: Option<u8>, bg: Option<u8>, bold: bool) -> Style {
    Style { fg, bg, bold, dim: false }
}

/// The grid with `area` (cut at the largest coordinate) filled with
/// (`code`, `style`).
pub open spec fn fill_cells(s: Seq<(int, Style)>, w: nat, area: Rect, code: int, style: Style) -> Seq<(int, Style)> {
    paint_region(s, w, span(
        area.x as int,
        sat_add(area.x as int, area.width as int),
        area.y as int,
        sat_add(area.y as int, area.height as int),
        code,
        style,
    ))
}

/// The status bar: key hints, then the current message.
pub open spec fn status_cells(s: Seq<(int, Style)>, w: nat, h: nat, message: Seq<char>, area: Rect) -> Seq<(int, Style)> {
    let s1 = fill_cells(s, w, area, ' ' as int, sty(None, Some(PANEL), false));
    let s2 = write_cells(
        s1,
        w,
        h,
        (area.x + 3) as nat,
        area.y as nat,
        "q quit   enter drill   backspace parent   arrows select   tab focus   r rescan   o open   ? help"@,
        sty(Some(MUTED), Some(PANEL), false),
    );
    write_cells(s2, w, h, (area.x + 3) as nat, (area.y + 1) as nat, truncated(message, sat_sub(area.width as int, 6) as nat), sty(Some(TEXT), Some(PANEL), false))
}

fn draw_status(canvas: &mut Canvas, app: &App, area: Rect)
    requires
        old(canvas).wf(),
        area.x + 3 <= 0xffff,
        area.y + 1 <= 0xffff,
    ensures
        final(canvas).wf(),
        old(canvas).same_frame(final(canvas)),
        final(canvas).screen() == status_cells(old(canvas).screen(), old(canvas).w(), old(canvas).h(), app.message@, area),
{
    fill_rect(canvas, area, ' ', Style::bg(PANEL));
    canvas.write(
        area.x + 3,
        area.y,
        "q quit   enter drill   backspace parent   arrows select   tab focus   r rescan   o open   ? help",
        Style::fg(MUTED).on_bg(PANEL),
    );
    let message = truncate(app.message.as_str(), area.width.saturating_sub(6) as usize);
    canvas.write(area.x + 3, area.y + 1, message.as_str(), Style::fg(TEXT).on_bg(PANEL));
}

/// The lines of the help box.
pub open spec fn help_line(i: int) -> Seq<char> {
    if i == 0 {
        "q / Esc       quit"@
    } else if i == 1 {
        "Enter         drill into selected directory"@
    } else if i == 2 {
        "Backspace     go to parent"@
    } else if i == 3 {
        "Up/Down       move selection"@
    } else if i == 4 {
        "Left/Right    move sibling selection"@
    } else if i == 5 {
        "Tab           switch focus"@
    } else if i == 6 {
        "r             rescan root path"@
    } else if i == 7 {
        "o             open selected path"@
    } else if i == 8 {
        "d             delete placeholder, no hard delete"@
    } else {
        "?             close this help"@
    }
}

fn help_line_text(i: usize) -> (r: &'static str)
    ensures
        r@ == help_line(i as int),
{
    if i == 0 {
        "q / Esc       quit"
    } else if i == 1 {
        "Enter         drill into selected directory"
    } else if i == 2 {
        "Backspace     go to parent"
    } else if i == 3 {
        "Up/Down       move selection"
    } else if i == 4 {
        "Left/Right    move sibling selection"
    } else if i == 5 {
        "Tab           switch focus"
    } else if i == 6 {
        "r             rescan root path"
    } else if i == 7 {
        "o             open selected path"
    } else if i == 8 {
        "d             delete placeholder, no hard delete"
    } else {
        "?             close this help"
    }
}

/// The first `k` help lines written inside the box at (`x`, `y`).
pub open spec fn help_lines_cells(s: Seq<(int, Style)>, w: nat, h: nat, x: nat, y: nat, k: nat) -> Seq<(int, Style)>
    decreases k,
{
    if k == 0 {
        s
    } else {
        write_cells(help_lines_cells(s, w, h, x, y, (k - 1) as nat), w, h, x + 2, y + k, help_line(k - 1), sty(Some(TEXT), Some(PANEL), false))
    }
}

/// The box of 50 by 12 cells centred on the screen.
pub open spec fn help_box(width: int, height: int) -> Rect {
    Rect { x: (width / 2 - 25) as u16, y: (height / 2 - 6) as u16, width: 50, height: 12 }
}

/// The help box: a bordered panel titled " help " listing the keys.
pub open spec fn help_cells(s: Seq<(int, Style)>, w: nat, h: nat, width: int, height: int) -> Seq<(int, Style)> {
    let popup = help_box(width, height);
    let s1 = fill_cells(s, w, popup, ' ' as int, sty(None, Some(PANEL), false));
    let s2 = paint_region(s1, w, border(popup.x as int, popup.x + 49, popup.y as int, popup.y + 11, sty(Some(FAINT), Some(PANEL), false)));
    let s3 = write_cells(s2, w, h, (popup.x + 2) as nat, popup.y as nat, " help "@, sty(Some(WHITE), Some(PANEL), true));
    help_lines_cells(s3, w, h, popup.x as nat, popup.y as nat, 10)
}

fn draw_help(canvas: &mut Canvas, width: u16, height: u16)
    requires
        old(canvas).wf(),
        50 <= width,
        12 <= height,
    ensures
        final(canvas).wf(),
        old(canvas).same_frame(final(canvas)),
        final(canvas).screen() == help_cells(old(canvas).screen(), old(canvas).w(), old(canvas).h(), width as int, height as int),
{
    let popup = Rect { x: width / 2 - 25, y: height / 2 - 6, width: 50, height: 12 };
    fill_rect(canvas, popup, ' ', Style::bg(PANEL));
    outline(canvas, popup, Style::fg(FAINT).on_bg(PANEL));
    canvas.write(popup.x + 2, popup.y, " help ", Style::fg(WHITE).on_bg(PANEL).bold());
    let ghost s3 = canvas.screen();
    let mut idx: usize = 0;
    while idx < 10
        invariant
            canvas.wf(),
            old(canvas).same_frame(canvas),
            idx <= 10,
            popup.x + 50 <= 0xffff,
            popup.y + 12 <= 0xffff,
            canvas.screen() == help_lines_cells(s3, canvas.w(), canvas.h(), popup.x as nat, popup.y as nat, idx as nat),
        decreases 10 - idx,
    {
        canvas.write(popup.x + 2, popup.y + 1 + idx as u16, help_line_text(idx), Style::fg(TEXT).on_bg(PANEL));
        idx = idx + 1;
    }
}


/// The header: title, two pills (section and the displayed directory) and
/// the breadcrumb with the scanned root's path.
pub open spec fn header_cells(s: Seq<(int, Style)>, w: nat, h: nat, app: App, area: Rect) -> Seq<(int, Style)> {
    let left = area.x + 3;
    let s1 = write_cells(s, w, h, left as nat, (area.y + 1) as nat, "Dustbunny"@, sty(Some(WHITE), None, true));
    let s2 = write_cells(s1, w, h, (left + 12) as nat, (area.y + 1) as nat, pill_text("Disks and Folders"@), sty(Some(WHITE), Some(25), true));
    let s3 = write_cells(
        s2,
        w,
        h,
        (left + 31) as nat,
        (area.y + 1) as nat,
        pill_text(truncated(app.tree.node(app.view_root).name@, 24)),
        sty(Some(TEXT), Some(PANEL_2), false),
    );
    let line = join(app.tree.ancestry_names(app.view_root), " / "@) + "   "@ + app.tree.node(app.tree.root_id()).path@;
    write_cells(s3, w, h, left as nat, (area.y + 2) as nat, truncated(line, sat_sub(area.width as int, 6) as nat), sty(Some(MUTED), None, false))
}

fn draw_header(canvas: &mut Canvas, app: &App, area: Rect)
    requires
        old(canvas).wf(),
        app.valid(),
        app.tree.wf(),
        area.x + 34 <= 0xffff,
        area.y + 2 <= 0xffff,
    ensures
        final(canvas).wf(),
        old(canvas).same_frame(final(canvas)),
        final(canvas).screen() == header_cells(old(canvas).screen(), old(canvas).w(), old(canvas).h(), *app, area),
{
    let root = app.tree.get(app.tree.root());
    let left = area.x + 3;
    canvas.write(left, area.y + 1, "Dustbunny", Style::fg(WHITE).bold());
    draw_pill(canvas, left + 12, area.y + 1, "Disks and Folders", Style::new(Some(WHITE), Some(25), true, false));
    let name = truncate(app.tree.get(app.view_root).name.as_str(), 24);
    draw_pill(canvas, left + 31, area.y + 1, name.as_str(), Style::new(Some(TEXT), Some(PANEL_2), false, false));
    let mut line = app.tree.breadcrumb(app.view_root);
    push_str(&mut line, "   ");
    push_str(&mut line, root.path.as_str());
    let shown_line = truncate(line.as_str(), area.width.saturating_sub(6) as usize);
    canvas.write(left, area.y + 2, shown_line.as_str(), Style::fg(MUTED));
}


/// The marker colors of list entries, by position.
pub open spec fn palette(i: int) -> u8 {
    if i == 0 {
        119
    } else if i == 1 {
        116
    } else if i == 2 {
        111
    } else if i == 3 {
        75
    } else if i == 4 {
        99
    } else if i == 5 {
        135
    } else if i == 6 {
        205
    } else if i == 7 {
        168
    } else if i == 8 {
        215
    } else {
        229
    }
}

/// Colour `i` of the map palette, which repeats every ten.
pub fn palette_color(i: usize) -> (r: u8)
    ensures
        r == palette((i % 10) as int),
{
    let k = i % 10;
    if k == 0 {
        119
    } else if k == 1 {
        116
    } else if k == 2 {
        111
    } else if k == 3 {
        75
    } else if k == 4 {
        99
    } else if k == 5 {
        135
    } else if k == 6 {
        205
    } else if k == 7 {
        168
    } else if k == 8 {
        215
    } else {
        229
    }
}

/// Where text of `len` characters starts so that it ends before `right`.
pub open spec fn right_start(right: int, len: nat) -> nat {
    sat_sub(right, (len % 0x10000) as int) as nat
}

/// One entry of the sidebar list, drawn on `row`: a marker, the name and
/// the size; the selected entry is highlighted across the row.
pub open spec fn list_row_cells(
    s: Seq<(int, Style)>,
    w: nat,
    h: nat,
    app: App,
    area: Rect,
    children: Seq<NodeId>,
    pi: int,
    row: int,
) -> Seq<(int, Style)> {
    let child = children[pi];
    let node = app.tree.node(child);
    let is_sel = child == app.selected;
    let style = if is_sel { sty(Some(SELECTED_TEXT), Some(SELECTED), true) } else { sty(Some(TEXT), None, false) };
    let marker_style = if is_sel { style } else { sty(Some(palette(pi % 10)), None, false) };
    let marker = if is_sel { '▶' as int } else { '•' as int };
    let s1 = if is_sel {
        fill_cells(
            s,
            w,
            Rect { x: (area.x + 1) as u16, y: row as u16, width: sat_sub(area.width as int, 2) as u16, height: 1 },
            ' ' as int,
            sty(None, Some(SELECTED), false),
        )
    } else {
        s
    };
    let s2 = put_cell(s1, w, h, (area.x + 3) as nat, row as nat, marker, marker_style);
    let s3 = write_cells(s2, w, h, (area.x + 5) as nat, row as nat, truncated(node.name@, sat_sub(area.width as int, 19) as nat), style);
    let size = size_text(node.size_bytes as nat);
    write_cells(s3, w, h, right_start(area.x + area.width - 2, size.len()), row as nat, size, style)
}

/// The first `k` entries of the list from `children[start]`, from `row0`
/// down.
pub open spec fn list_rows_cells(
    s: Seq<(int, Style)>,
    w: nat,
    h: nat,
    app: App,
    area: Rect,
    children: Seq<NodeId>,
    start: int,
    row0: int,
    k: nat,
) -> Seq<(int, Style)>
    decreases k,
{
    if k == 0 {
        s
    } else {
        list_row_cells(
            list_rows_cells(s, w, h, app, area, children, start, row0, (k - 1) as nat),
            w,
            h,
            app,
            area,
            children,
            start + k - 1,
            row0 + k - 1,
        )
    }
}

/// The position of the selection in the displayed list, 0 when absent.
pub open spec fn selection_row(app: App) -> int {
    match position_of(app.children_view(), app.selected) {
        Some(i) => i,
        None => 0,
    }
}

/// The top of the sidebar: background, left rule, and the displayed
/// directory's name and size.
pub open spec fn sidebar_top_cells(s: Seq<(int, Style)>, w: nat, h: nat, app: App, area: Rect) -> Seq<(int, Style)> {
    let s1 = fill_cells(s, w, area, ' ' as int, sty(None, Some(BG), false));
    let s2 = paint_region(s1, w, span(area.x as int, area.x + 1, area.y as int, area.y + area.height, '│' as int, sty(Some(PANEL_2), None, false)));
    let title_y = area.y + 2;
    let view = app.tree.node(app.view_root);
    let s3 = write_cells(s2, w, h, (area.x + 3) as nat, title_y as nat, truncated(view.name@, sat_sub(area.width as int, 15) as nat), sty(Some(WHITE), None, false));
    let rs = size_text(view.size_bytes as nat);
    write_cells(s3, w, h, right_start(area.x + area.width - 2, rs.len()), title_y as nat, rs, sty(Some(WHITE), None, false))
}

/// The window of listed entries: (start, end).
pub open spec fn sidebar_window(app: App, area: Rect) -> (int, int) {
    list_window(app.children_view().len() as int, selection_row(app), sat_sub(area.height as int, 15))
}

/// Whether the "above" marker is drawn.
pub open spec fn sidebar_above(app: App, area: Rect) -> bool {
    sidebar_window(app, area).0 > 0 && area.y + 4 < area.y + area.height
}

/// The row of the first listed entry.
pub open spec fn sidebar_first_row(app: App, area: Rect) -> int {
    area.y + 4 + (if sidebar_above(app, area) { 1int } else { 0int })
}

/// How many entries are below the window.
pub open spec fn sidebar_hidden(app: App, area: Rect) -> int {
    sat_sub(app.children_view().len() as int, sidebar_window(app, area).1)
}

/// The row just past the list and its "below" marker.
pub open spec fn sidebar_list_end(app: App, area: Rect) -> int {
    sidebar_first_row(app, area) + (sidebar_window(app, area).1 - sidebar_window(app, area).0) + (if sidebar_hidden(app, area) > 0 { 1int } else { 0int })
}

/// The list part of the sidebar: markers for entries scrolled away and
/// the window of entries.
pub open spec fn sidebar_list_cells(s: Seq<(int, Style)>, w: nat, h: nat, app: App, area: Rect) -> Seq<(int, Style)> {
    let children = app.children_view();
    let window = sidebar_window(app, area);
    let start = window.0;
    let end = window.1;
    let s5 = if sidebar_above(app, area) {
        write_cells(s, w, h, (area.x + 5) as nat, (area.y + 4) as nat, "↑ "@ + decimal(start as nat) + " above"@, sty(Some(FAINT), None, false))
    } else {
        s
    };
    let row0 = sidebar_first_row(app, area);
    let s6 = list_rows_cells(s5, w, h, app, area, children, start, row0, (end - start) as nat);
    let row1 = row0 + (end - start);
    let hidden = sidebar_hidden(app, area);
    if hidden > 0 {
        write_cells(s6, w, h, (area.x + 5) as nat, row1 as nat, "↓ "@ + decimal(hidden as nat) + " below"@, sty(Some(FAINT), None, false))
    } else {
        s6
    }
}

/// The lower part of the sidebar from row `row`: a rule, the selection's
/// name, kind, size, item count and path, and the focus at the bottom.
pub open spec fn sidebar_details_cells(s: Seq<(int, Style)>, w: nat, h: nat, app: App, area: Rect, row: int) -> Seq<(int, Style)> {
    let row2 = row + 1;
    let s8 = paint_region(s, w, span(area.x + 3, area.x + 3 + sat_sub(area.width as int, 6), row2, row2 + 1, '─' as int, sty(Some(PANEL_2), None, false)));
    let row3 = row2 + 2;
    let sel = app.tree.node(app.selected);
    let s9 = write_cells(s8, w, h, (area.x + 3) as nat, row3 as nat, "selected"@, sty(Some(FAINT), None, false));
    let s10 = write_cells(s9, w, h, (area.x + 3) as nat, (row3 + 1) as nat, truncated(sel.name@, sat_sub(area.width as int, 6) as nat), sty(Some(WHITE), None, true));
    let s11 = write_cells(s10, w, h, (area.x + 3) as nat, (row3 + 2) as nat, sel.kind.icon_text(), sty(Some(MUTED), None, false));
    let s12 = write_cells(s11, w, h, (area.x + 8) as nat, (row3 + 2) as nat, size_text(sel.size_bytes as nat), sty(Some(TEXT), None, false));
    let s13 = write_cells(s12, w, h, (area.x + 3) as nat, (row3 + 3) as nat, decimal(app.tree.descendants(app.selected).len()) + " items"@, sty(Some(MUTED), None, false));
    let s14 = write_cells(s13, w, h, (area.x + 3) as nat, (row3 + 4) as nat, truncated(sel.path@, sat_sub(area.width as int, 6) as nat), sty(Some(FAINT), None, false));
    let footer = area.y + sat_sub(area.height as int, 2);
    let label = if app.focus == Focus::List { "list focus"@ } else { "map focus"@ };
    write_cells(s14, w, h, (area.x + 3) as nat, footer as nat, label, sty(Some(FAINT), None, false))
}

/// The sidebar: the displayed directory with its size, the window of its
/// entries with markers for entries scrolled away, then details of the
/// selection and the focus.
pub open spec fn sidebar_cells(s: Seq<(int, Style)>, w: nat, h: nat, app: App, area: Rect) -> Seq<(int, Style)> {
    let top = sidebar_top_cells(s, w, h, app, area);
    let list = sidebar_list_cells(top, w, h, app, area);
    sidebar_details_cells(list, w, h, app, area, sidebar_list_end(app, area))
}

fn draw_list_row(canvas: &mut Canvas, app: &App, area: Rect, children: &Vec<NodeId>, pi: usize, row: u16)
    requires
        old(canvas).wf(),
        app.valid(),
        pi < children@.len(),
        children@ == app.children_view(),
        forall|j: int| 0 <= j < children@.len() ==> (#[trigger] children@[j]).0 < app.tree.len(),
        area.x + area.width <= 0xffff,
        area.x + 8 <= 0xffff,
        area.width >= 2,
        row <= 0xfffe,
    ensures
        final(canvas).wf(),
        old(canvas).same_frame(final(canvas)),
        final(canvas).screen() == list_row_cells(old(canvas).screen(), old(canvas).w(), old(canvas).h(), *app, area, children@, pi as int, row as int),
{
    let child = children[pi];
    let node = app.tree.get(child);
    let color = palette_color(pi);
    let is_sel = child == app.selected;
    let style = if is_sel {
        Style::fg(SELECTED_TEXT).on_bg(SELECTED).bold()
    } else {
        Style::fg(TEXT)
    };
    if is_sel {
        fill_rect(canvas, Rect { x: area.x + 1, y: row, width: area.width.saturating_sub(2), height: 1 }, ' ', Style::bg(SELECTED));
    }
    let marker_style = if is_sel { style } else { Style::fg(color) };
    let marker = if is_sel { '▶' } else { '•' };
    canvas.put(area.x + 3, row, marker, marker_style);
    let name = truncate(node.name.as_str(), area.width.saturating_sub(19) as usize);
    canvas.write(area.x + 5, row, name.as_str(), style);
    let size = format_size(node.size_bytes);
    canvas.write_right(area.x + area.width - 2, row, size.as_str(), style);
}

fn draw_sidebar_top(canvas: &mut Canvas, app: &App, area: Rect)
    requires
        old(canvas).wf(),
        app.valid(),
        area.x + area.width <= 0xffff,
        area.x + 8 <= 0xffff,
        area.width >= 2,
        area.y + area.height <= 0xffff,
        area.height >= 15,
    ensures
        final(canvas).wf(),
        old(canvas).same_frame(final(canvas)),
        final(canvas).screen() == sidebar_top_cells(old(canvas).screen(), old(canvas).w(), old(canvas).h(), *app, area),
{
    fill_rect(canvas, area, ' ', Style::bg(BG));
    draw_vline(canvas, area.x, area.y, area.height, Style::fg(PANEL_2));
    let view = app.tree.get(app.view_root);
    let title_y = area.y + 2;
    let title = truncate(view.name.as_str(), area.width.saturating_sub(15) as usize);
    canvas.write(area.x + 3, title_y, title.as_str(), Style::fg(WHITE));
    let root_size = format_size(view.size_bytes);
    canvas.write_right(area.x + area.width - 2, title_y, root_size.as_str(), Style::fg(WHITE));
}

#[verifier::rlimit(40)]
fn draw_sidebar_list(canvas: &mut Canvas, app: &App, area: Rect) -> (row: u16)
    requires
        old(canvas).wf(),
        app.valid(),
        area.x + area.width <= 0xffff,
        area.x + 8 <= 0xffff,
        area.width >= 2,
        area.y + area.height <= 0xffff,
        area.height >= 15,
    ensures
        final(canvas).wf(),
        old(canvas).same_frame(final(canvas)),
        final(canvas).screen() == sidebar_list_cells(old(canvas).screen(), old(canvas).w(), old(canvas).h(), *app, area),
        row == sidebar_list_end(*app, area),
        row <= area.y + sat_sub(area.height as int, 15) + 6,
{
    let children = app.visible_children();
    let list_limit = area.height.saturating_sub(15) as usize;
    let selected_index = match app.selected_index() {
        Some(i) => i,
        None => 0,
    };
    proof {
        crate::app::lemma_position_of(app.children_view(), app.selected);
        if children.len() > 0 && list_limit > 0 {
            lemma_list_window(children.len() as int, selected_index as int, list_limit as int);
        }
    }
    let (list_start, list_end) = visible_list_window(children.len(), selected_index, list_limit);
    let title_y = area.y + 2;
    let mut row = title_y + 2;
    let above = list_start > 0 && row < area.y + area.height;
    if above {
        let mut text = String::from_str("↑ ");
        push_decimal(&mut text, list_start as u64);
        push_str(&mut text, " above");
        canvas.write(area.x + 5, row, text.as_str(), Style::fg(FAINT));
        row = row + 1;
    }
    let ghost s5 = canvas.screen();
    let ghost row0 = row as int;
    let mut pi = list_start;
    while pi < list_end
        invariant
            canvas.wf(),
            old(canvas).same_frame(canvas),
            app.valid(),
            children@ == app.children_view(),
            forall|j: int| 0 <= j < children@.len() ==> (#[trigger] children@[j]).0 < app.tree.len(),
            list_start <= pi <= list_end <= children@.len(),
            list_end - list_start <= (if list_limit > 0 { list_limit as int } else { 0int }),
            list_limit == sat_sub(area.height as int, 15),
            area.x + area.width <= 0xffff,
            area.x + 8 <= 0xffff,
            area.width >= 2,
            area.y + area.height <= 0xffff,
            area.height >= 15,
            row0 <= area.y + 5,
            row == row0 + (pi - list_start),
            canvas.screen() == list_rows_cells(s5, canvas.w(), canvas.h(), *app, area, children@, list_start as int, row0, (pi - list_start) as nat),
        decreases list_end - pi,
    {
        draw_list_row(canvas, app, area, &children, pi, row);
        row = row + 1;
        pi = pi + 1;
    }
    let hidden_after = children.len() - list_end;
    if hidden_after > 0 {
        let mut text = String::from_str("↓ ");
        push_decimal(&mut text, hidden_after as u64);
        push_str(&mut text, " below");
        canvas.write(area.x + 5, row, text.as_str(), Style::fg(FAINT));
        row = row + 1;
    }
    row
}

fn draw_sidebar_details(canvas: &mut Canvas, app: &App, area: Rect, row: u16)
    requires
        old(canvas).wf(),
        app.valid(),
        app.tree.wf(),
        area.x + area.width <= 0xffff,
        area.x + 8 <= 0xffff,
        area.width >= 2,
        row + 8 <= 0xffff,
        area.y + area.height <= 0xffff,
    ensures
        final(canvas).wf(),
        old(canvas).same_frame(final(canvas)),
        final(canvas).screen() == sidebar_details_cells(old(canvas).screen(), old(canvas).w(), old(canvas).h(), *app, area, row as int),
{
    let selected = app.tree.get(app.selected);
    let mut row = row + 1;
    draw_hline(canvas, area.x + 3, row, area.width.saturating_sub(6), Style::fg(PANEL_2));
    row = row + 2;
    canvas.write(area.x + 3, row, "selected", Style::fg(FAINT));
    row = row + 1;
    let sel_name = truncate(selected.name.as_str(), area.width.saturating_sub(6) as usize);
    canvas.write(area.x + 3, row, sel_name.as_str(), Style::fg(WHITE).bold());
    row = row + 1;
    canvas.write(area.x + 3, row, selected.kind.icon(), Style::fg(MUTED));
    let sel_size = format_size(selected.size_bytes);
    canvas.write(area.x + 8, row, sel_size.as_str(), Style::fg(TEXT));
    row = row + 1;
    let count = app.tree.item_count(app.selected);
    let mut items = String::new();
    push_decimal(&mut items, count as u64);
    push_str(&mut items, " items");
    canvas.write(area.x + 3, row, items.as_str(), Style::fg(MUTED));
    row = row + 1;
    let sel_path = truncate(selected.path.as_str(), area.width.saturating_sub(6) as usize);
    canvas.write(area.x + 3, row, sel_path.as_str(), Style::fg(FAINT));
    let footer = area.y + area.height.saturating_sub(2);
    let focus_label = if app.focus == Focus::List { "list focus" } else { "map focus" };
    canvas.write(area.x + 3, footer, focus_label, Style::fg(FAINT));
}

fn draw_sidebar(canvas: &mut Canvas, app: &App, area: Rect)
    requires
        old(canvas).wf(),
        app.valid(),
        app.tree.wf(),
        area.x + area.width <= 0xffff,
        area.x + 8 <= 0xffff,
        area.width >= 2,
        area.y + area.height <= 0xffff,
        area.height >= 15,
    ensures
        final(canvas).wf(),
        old(canvas).same_frame(final(canvas)),
        final(canvas).screen() == sidebar_cells(old(canvas).screen(), old(canvas).w(), old(canvas).h(), *app, area),
{
    draw_sidebar_top(canvas, app, area);
    let row = draw_sidebar_list(canvas, app, area);
    draw_sidebar_details(canvas, app, area, row);
}


/// One drawing step of the disk map, computed outside: a half-block cell or
/// a text.
#[derive(Debug)]
pub enum Paint {
    Half { x: u16, y: u16, upper: Option<u8>, lower: Option<u8> },
    Text { x: u16, y: u16, text: String, style: Style },
}

/// The grid after one drawing step.
pub open spec fn paint_cells(s: Seq<(int, Style)>, w: nat, h: nat, p: Paint) -> Seq<(int, Style)> {
    match p {
        Paint::Half { x, y, upper, lower } => half_block_cells(s, w, h, x as nat, y as nat, upper, lower),
        Paint::Text { x, y, text, style } => write_cells(s, w, h, x as nat, y as nat, text@, style),
    }
}

/// The grid after the first `k` drawing steps, in order.
pub open spec fn paints_cells(s: Seq<(int, Style)>, w: nat, h: nat, ps: Seq<Paint>, k: nat) -> Seq<(int, Style)>
    decreases k,
{
    if k == 0 {
        s
    } else {
        paint_cells(paints_cells(s, w, h, ps, (k - 1) as nat), w, h, ps[k - 1])
    }
}

/// The map pane: cleared, then either a "too small" note, or its focus
/// label, the given drawing steps and the drop hint.
pub open spec fn map_cells(s: Seq<(int, Style)>, w: nat, h: nat, app: App, area: Rect, paints: Seq<Paint>) -> Seq<(int, Style)> {
    let s1 = fill_cells(s, w, area, ' ' as int, sty(None, Some(BG), false));
    if area.width < 32 || area.height < 14 {
        write_cells(s1, w, h, (area.x + 2) as nat, (area.y + 2) as nat, "terminal too small"@, sty(Some(MUTED), None, false))
    } else {
        let label = if app.focus == Focus::MapPane { "map *"@ } else { "map"@ };
        let s2 = write_cells(s1, w, h, (area.x + 3) as nat, area.y as nat, label, sty(Some(MUTED), None, false));
        let s3 = paints_cells(s2, w, h, paints, paints.len());
        let drop_y = area.y + sat_sub(area.height as int, 2);
        let s4 = write_cells(s3, w, h, (area.x + 4) as nat, drop_y as nat, "◎"@, sty(Some(FAINT), None, false));
        write_cells(s4, w, h, (area.x + 8) as nat, drop_y as nat, "drag and drop files here to collect them"@, sty(Some(FAINT), None, false))
    }
}

fn draw_sunburst(canvas: &mut Canvas, app: &App, area: Rect, paints: &Vec<Paint>)
    requires
        old(canvas).wf(),
        area.x + 8 <= 0xffff,
        area.y + area.height <= 0xffff,
        area.y + 2 <= 0xffff,
    ensures
        final(canvas).wf(),
        old(canvas).same_frame(final(canvas)),
        final(canvas).screen() == map_cells(old(canvas).screen(), old(canvas).w(), old(canvas).h(), *app, area, paints@),
{
    fill_rect(canvas, area, ' ', Style::bg(BG));
    if area.width < 32 || area.height < 14 {
        canvas.write(area.x + 2, area.y + 2, "terminal too small", Style::fg(MUTED));
        return;
    }
    let focus = if app.focus == Focus::MapPane { "map *" } else { "map" };
    canvas.write(area.x + 3, area.y, focus, Style::fg(MUTED));
    let ghost s2 = canvas.screen();
    let mut k: usize = 0;
    while k < paints.len()
        invariant
            canvas.wf(),
            old(canvas).same_frame(canvas),
            k <= paints.len(),
            canvas.screen() == paints_cells(s2, canvas.w(), canvas.h(), paints@, k as nat),
        decreases paints.len() - k,
    {
        match &paints[k] {
            Paint::Half { x, y, upper, lower } => put_half_block(canvas, *x, *y, *upper, *lower),
            Paint::Text { x, y, text, style } => canvas.write(*x, *y, text.as_str(), *style),
        }
        k = k + 1;
    }
    let drop_y = area.y + area.height.saturating_sub(2);
    canvas.write(area.x + 4, drop_y, "◎", Style::fg(FAINT));
    canvas.write(area.x + 8, drop_y, "drag and drop files here to collect them", Style::fg(FAINT));
}

/// The frame's width: at least 80 columns.
pub open spec fn frame_width(width: int) -> int {
    if width > 80 { width } else { 80 }
}

/// The frame's height: at least 24 rows.
pub open spec fn frame_height(height: int) -> int {
    if height > 24 { height } else { 24 }
}

/// The sidebar's width: 31% of the frame, kept between 30 and 44 columns.
pub open spec fn side_width(width: int) -> int {
    let raw = width * 31 / 100;
    if raw < 30 { 30 } else if raw > 44 { 44 } else { raw }
}

/// The regions of a frame: (header, map, sidebar, status bar).
pub open spec fn frame_regions(width: int, height: int) -> (Rect, Rect, Rect, Rect) {
    let w = frame_width(width);
    let h = frame_height(height);
    let side = side_width(w);
    (
        Rect { x: 0, y: 0, width: w as u16, height: 4 },
        Rect { x: 0, y: 4, width: (w - side) as u16, height: (h - 6) as u16 },
        Rect { x: (w - side) as u16, y: 4, width: side as u16, height: (h - 6) as u16 },
        Rect { x: 0, y: (h - 2) as u16, width: w as u16, height: 2 },
    )
}

/// The regions of the screen for a terminal of the given size: header,
/// map, sidebar and status bar.
pub fn frame_layout(width: u16, height: u16) -> (r: (Rect, Rect, Rect, Rect))
    ensures
        r == frame_regions(width as int, height as int),
{
    let width = if width > 80 { width } else { 80 };
    let height = if height > 24 { height } else { 24 };
    let raw = (width as u32 * 31 / 100) as u16;
    let side_width = if raw < 30 { 30 } else if raw > 44 { 44 } else { raw };
    let header = Rect { x: 0, y: 0, width, height: 4 };
    let status = Rect { x: 0, y: height - 2, width, height: 2 };
    let body_height = height - 6;
    let map = Rect { x: 0, y: 4, width: width - side_width, height: body_height };
    let side = Rect { x: map.width, y: 4, width: side_width, height: body_height };
    (header, map, side, status)
}

/// Everything on screen before it is printed.
pub open spec fn render_cells(app: App, width: int, height: int, paints: Seq<Paint>) -> Seq<(int, Style)> {
    let w = frame_width(width) as nat;
    let h = frame_height(height) as nat;
    let regions = frame_regions(width, height);
    let s0 = Seq::new(w * h, |i: int| (' ' as int, sty(None, Some(BG), false)));
    let s1 = header_cells(s0, w, h, app, regions.0);
    let s2 = map_cells(s1, w, h, app, regions.1, paints);
    let s3 = sidebar_cells(s2, w, h, app, regions.2);
    let s4 = status_cells(s3, w, h, app.message@, regions.3);
    if app.show_help {
        help_cells(s4, w, h, w as int, h as int)
    } else {
        s4
    }
}

/// Draws the whole explorer for a terminal of `width` by `height` cells
/// (at least 80 by 24); `map_paint` draws the disk map inside the map
/// region that [`frame_layout`] gives.
pub fn render(app: &App, width: u16, height: u16, map_paint: &Vec<Paint>) -> (r: String)
    requires
        app.valid(),
        app.tree.wf(),
        frame_width(width as int) * frame_height(height as int) <= usize::MAX,
    ensures
        r@ == frame_text(
            render_cells(*app, width as int, height as int, map_paint@),
            frame_width(width as int) as nat,
            frame_height(height as int) as nat,
            sty(None, Some(BG), false),
        ),
{
    let (header, map, side, status) = frame_layout(width, height);
    let width = if width > 80 { width } else { 80 };
    let height = if height > 24 { height } else { 24 };
    let mut canvas = Canvas::new(width, height, Style::bg(BG));
    draw_header(&mut canvas, app, header);
    draw_sunburst(&mut canvas, app, map, map_paint);
    draw_sidebar(&mut canvas, app, side);
    draw_status(&mut canvas, app, status);
    if app.show_help {
        draw_help(&mut canvas, width, height);
    }
    canvas.finish()
}


/// `s` right-aligned in a field of `width` characters.
pub open spec fn padded_left(s: Seq<char>, width: nat) -> Seq<char> {
    Seq::new(sat_sub(width as int, s.len() as int) as nat, |i: int| ' ') + s
}

/// One line of the summary's list: size right-aligned in ten columns, the
/// kind badge and the name.
pub open spec fn child_line(tree: FileTree, c: NodeId) -> Seq<char> {
    let node = tree.node(c);
    padded_left(size_text(node.size_bytes as nat), 10) + "  "@ + node.kind.icon_text() + " "@ + node.name@ + "\n"@
}

/// The lines for the first `k` of `cs`.
pub open spec fn child_lines(tree: FileTree, cs: Seq<NodeId>, k: nat) -> Seq<char>
    decreases k,
{
    if k == 0 {
        Seq::empty()
    } else {
        child_lines(tree, cs, (k - 1) as nat) + child_line(tree, cs[k - 1])
    }
}

/// The lines for the first `k` scan errors: path, colon, message.
pub open spec fn error_lines(errors: Seq<ScanError>, k: nat) -> Seq<char>
    decreases k,
{
    if k == 0 {
        Seq::empty()
    } else {
        error_lines(errors, (k - 1) as nat) + errors[k - 1].path@ + ": "@ + errors[k - 1].message@ + "\n"@
    }
}

/// The smaller of `a` and `b`.
pub open spec fn min_nat(a: nat, b: nat) -> nat {
    if a < b { a } else { b }
}

/// The plain-text report: the root's path, total size and item count, its
/// twenty largest children, and up to ten scan errors.
pub open spec fn summary_text(tree: FileTree) -> Seq<char> {
    let root = tree.node(tree.root_id());
    let cs = tree.sorted_children(tree.root_id());
    let head = root.path@ + "\nTotal: "@ + size_text(root.size_bytes as nat) + " across "@ + decimal(tree.descendants(tree.root_id()).len())
        + " items\n\n"@ + "Largest children:\n"@;
    let errors = tree.error_list();
    head + child_lines(tree, cs, min_nat(cs.len(), 20)) + (if errors.len() > 0 {
        "\nScan errors:\n"@ + error_lines(errors, min_nat(errors.len(), 10))
    } else {
        Seq::empty()
    })
}

fn push_padded(out: &mut String, text: &str, width: usize)
    ensures
        final(out)@ == old(out)@ + padded_left(text@, width as nat),
{
    let len = text.unicode_len();
    let target = if len < width { width - len } else { 0 };
    let mut pad: usize = 0;
    let ghost start = out@;
    while pad < target
        invariant
            out@ == start + Seq::new(pad as nat, |i: int| ' '),
            len == text@.len(),
            pad <= target,
            target == sat_sub(width as int, len as int),
        decreases target - pad,
    {
        push_char(out, ' ');
        pad = pad + 1;
        assert(out@ =~= start + Seq::new(pad as nat, |i: int| ' '));
    }
    assert(pad == sat_sub(width as int, len as int));
    push_str(out, text);
    assert(out@ =~= start + padded_left(text@, width as nat));
}

fn push_child_line(out: &mut String, tree: &FileTree, c: NodeId)
    requires
        c.0 < tree.len(),
    ensures
        final(out)@ == old(out)@ + child_line(*tree, c),
{
    let node = tree.get(c);
    let size = format_size(node.size_bytes);
    push_padded(out, size.as_str(), 10);
    push_str(out, "  ");
    push_str(out, node.kind.icon());
    push_str(out, " ");
    push_str(out, node.name.as_str());
    push_str(out, "\n");
}

/// A plain-text report of a scanned tree.
pub fn summary(tree: &FileTree) -> (r: String)
    requires
        tree.wf(),
    ensures
        r@ == summary_text(*tree),
        ({
            let root = tree.node(tree.root_id());
            let line = root.path@ + "\nTotal: "@ + size_text(root.size_bytes as nat) + " across "@ + decimal((tree.len() - 1) as nat)
                + " items\n"@;
            r@.len() >= line.len() && r@.take(line.len() as int) == line
        }),
{
    let root_id = tree.root();
    let root = tree.get(root_id);
    let mut output = String::from_str(root.path.as_str());
    push_str(&mut output, "\nTotal: ");
    let size = format_size(root.size_bytes);
    push_str(&mut output, size.as_str());
    push_str(&mut output, " across ");
    let count = tree.item_count(root_id);
    push_decimal(&mut output, count as u64);
    push_str(&mut output, " items\n\n");
    push_str(&mut output, "Largest children:\n");
    let ghost head = output@;
    proof {
        tree.lemma_wf_children_valid();
    }
    let children = tree.children_sorted(root_id);
    let n = if children.len() < 20 { children.len() } else { 20 };
    let mut k: usize = 0;
    while k < n
        invariant
            k <= n <= children@.len(),
            n == min_nat(children@.len(), 20),
            forall|j: int| 0 <= j < children@.len() ==> (#[trigger] children@[j]).0 < tree.len(),
            output@ == head + child_lines(*tree, children@, k as nat),
        decreases n - k,
    {
        push_child_line(&mut output, tree, children[k]);
        proof {
            assert(output@ =~= head + child_lines(*tree, children@, (k + 1) as nat));
        }
        k = k + 1;
    }
    let errors = tree.errors();
    if errors.len() > 0 {
        let ghost mid = output@;
        push_str(&mut output, "\nScan errors:\n");
        let m = if errors.len() < 10 { errors.len() } else { 10 };
        let ghost mid2 = output@;
        let mut e: usize = 0;
        while e < m
            invariant
                e <= m <= errors@.len(),
                errors@ == tree.error_list(),
                output@ == mid2 + error_lines(errors@, e as nat),
            decreases m - e,
        {
            push_str(&mut output, errors[e].path.as_str());
            push_str(&mut output, ": ");
            push_str(&mut output, errors[e].message.as_str());
            push_str(&mut output, "\n");
            proof {
                assert(output@ =~= mid2 + error_lines(errors@, (e + 1) as nat));
            }
            e = e + 1;
        }
        proof {
            assert(output@ =~= mid + "\nScan errors:\n"@ + error_lines(errors@, min_nat(errors@.len(), 10)));
        }
    }
    proof {
        assert(output@ =~= summary_text(*tree));
        lemma_summary_counts_all_items(*tree);
    }
    output
}

/// Whether a node has a size, and so a place on the disk map.
pub open spec fn has_size(tree: FileTree) -> spec_fn(NodeId) -> bool {
    |c: NodeId| tree.node(c).size_bytes > 0
}

/// The children of `node` that the disk map shows: those with a size, in
/// display order.
pub fn map_children(tree: &FileTree, node: NodeId) -> (r: Vec<NodeId>)
    requires
        tree.wf(),
        tree.valid_id(node),
    ensures
        r@ == tree.sorted_children(node).filter(has_size(*tree)),
        forall|j: int| 0 <= j < r@.len() ==> (#[trigger] r@[j]).0 < tree.len(),
{
    proof {
        tree.lemma_wf_children_valid();
    }
    let sorted = tree.children_sorted(node);
    let mut out: Vec<NodeId> = Vec::new();
    for i in 0..sorted.len()
        invariant
            forall|j: int| 0 <= j < sorted@.len() ==> (#[trigger] sorted@[j]).0 < tree.len(),
            out@ == sorted@.take(i as int).filter(has_size(*tree)),
            forall|j: int| 0 <= j < out@.len() ==> (#[trigger] out@[j]).0 < tree.len(),
    {
        let c = sorted[i];
        proof {
            assert(sorted@.take(i + 1) =~= sorted@.take(i as int).push(c));
            lemma_filter_push(sorted@.take(i as int), c, has_size(*tree));
        }
        if tree.get(c).size_bytes > 0 {
            out.push(c);
        }
    }
    assert(sorted@.take(sorted@.len() as int) =~= sorted@);
    out
}

/// What the sizes of `children` add up to, each counted as at least 1.
pub open spec fn map_weight(tree: FileTree, children: Seq<NodeId>) -> int
    decreases children.len(),
{
    if children.len() == 0 {
        0
    } else {
        let s = tree.node(children.last()).size_bytes;
        map_weight(tree, children.drop_last()) + if s < 1 { 1 } else { s as int }
    }
}

proof fn lemma_map_weight_prefix(tree: FileTree, children: Seq<NodeId>, k: int)
    requires
        0 <= k <= children.len(),
    ensures
        0 <= map_weight(tree, children.take(k)) <= map_weight(tree, children),
    decreases children.len(),
{
    if children.len() > 0 {
        let t = children.drop_last();
        if k == children.len() {
            assert(children.take(k) =~= children);
            lemma_map_weight_prefix(tree, t, 0);
            assert(t.take(0) =~= children.take(0));
        } else {
            lemma_map_weight_prefix(tree, t, k);
            assert(t.take(k) =~= children.take(k));
            lemma_map_weight_prefix(tree, t, t.len() as int);
            assert(t.take(t.len() as int) =~= t);
        }
    } else {
        assert(children.take(k) =~= children);
    }
}

/// What the disk map divides a ring among `children`: their sizes, each
/// counted as at least 1.
pub fn map_total(tree: &FileTree, children: &Vec<NodeId>) -> (t: u64)
    requires
        forall|j: int| 0 <= j < children@.len() ==> (#[trigger] children@[j]).0 < tree.len(),
        map_weight(*tree, children@) <= u64::MAX,
    ensures
        t == map_weight(*tree, children@),
{
    let mut t: u64 = 0;
    for i in 0..children.len()
        invariant
            forall|j: int| 0 <= j < children@.len() ==> (#[trigger] children@[j]).0 < tree.len(),
            map_weight(*tree, children@) <= u64::MAX,
            t == map_weight(*tree, children@.take(i as int)),
    {
        proof {
            assert(children@.take(i + 1).drop_last() =~= children@.take(i as int));
            lemma_map_weight_prefix(*tree, children@, i + 1);
        }
        let s = tree.get(children[i]).size_bytes;
        t = t + if s < 1 { 1 } else { s };
    }
    assert(children@.take(children@.len() as int) =~= children@);
    t
}

/// The colour of a segment of the disk map: on the innermost ring the
/// palette in turn, further out its parent's colour darkened by 6 for each
/// ring.
pub open spec fn ring_shade(depth: int, index: int, inherited: u8) -> u8 {
    if depth == 0 {
        palette(index % 10)
    } else {
        let step = if (depth % 256) * 6 > 255 { 255 } else { (depth % 256) * 6 };
        (if inherited > step { inherited - step } else { 0 }) as u8
    }
}

/// The colour of segment `index` of ring `depth`, whose parent segment has
/// colour `inherited`.
pub fn ring_color(depth: usize, index: usize, inherited: u8) -> (c: u8)
    ensures
        c == ring_shade(depth as int, index as int, inherited),
{
    if depth == 0 {
        palette_color(index)
    } else {
        let d: u16 = (depth % 256) as u16;
        let step: u8 = if d * 6 > 255 { 255 } else { (d * 6) as u8 };
        inherited.saturating_sub(step)
    }
}

/// In a tree every node but the root lies below the root.
pub proof fn lemma_root_descendants(tree: FileTree)
    requires
        tree.wf(),
    ensures
        tree.descendants(tree.root_id()).len() == tree.len() - 1,
{
    let n = tree.len() as int;
    let root = tree.root_id();
    assert(root == NodeId(0));
    vstd::set_lib::lemma_int_range(1, n);
    assert forall|j: int| tree.descendants(root).contains(j) <==> vstd::set_lib::set_int_range(1, n).contains(j) by {
        if 1 <= j < n {
            lemma_all_below_root(tree, j);
            assert(NodeId(j as usize).0 as int == j);
        }
        if j == 0 && tree.descendants(root).contains(j) {
            assert(NodeId(0 as usize) == root);
            tree.lemma_desc_lt(root, root);
        }
    }
    assert(tree.descendants(root) =~= vstd::set_lib::set_int_range(1, n));
}

/// The summary report opens with the root's path, then its total size and
/// the number of items below it, which is every node of the tree but the
/// root.
pub proof fn lemma_summary_counts_all_items(tree: FileTree)
    requires
        tree.wf(),
    ensures
        ({
            let root = tree.node(tree.root_id());
            let line = root.path@ + "\nTotal: "@ + size_text(root.size_bytes as nat) + " across "@ + decimal((tree.len() - 1) as nat)
                + " items\n"@;
            summary_text(tree).len() >= line.len() && summary_text(tree).take(line.len() as int) == line
        }),
{
    lemma_root_descendants(tree);
    let root = tree.node(tree.root_id());
    let line = root.path@ + "\nTotal: "@ + size_text(root.size_bytes as nat) + " across "@ + decimal((tree.len() - 1) as nat)
        + " items\n"@;
    reveal_strlit(" items\n\n");
    reveal_strlit(" items\n");
    assert(" items\n\n"@ =~= " items\n"@ + "\n"@) by {
        reveal_strlit("\n");
    }
    let cs = tree.sorted_children(tree.root_id());
    let errors = tree.error_list();
    let rest = "\n"@ + "Largest children:\n"@ + child_lines(tree, cs, min_nat(cs.len(), 20)) + (if errors.len() > 0 {
        "\nScan errors:\n"@ + error_lines(errors, min_nat(errors.len(), 10))
    } else {
        Seq::empty()
    });
    assert(summary_text(tree) =~= line + rest);
    assert((line + rest).take(line.len() as int) =~= line);
}

/// The details of the selection show, on the sixth row after `row`, the
/// number of nodes below the selected node followed by ` items`, wherever
/// that text falls inside the grid and the focus label is on another row.
pub proof fn lemma_details_show_item_count(s: Seq<(int, Style)>, w: nat, h: nat, app: App, area: Rect, row: int, k: int)
    requires
        s.len() == w * h,
        0 <= row + 6 < h,
        area.y + sat_sub(area.height as int, 2) != row + 6,
        0 <= k < (decimal(app.tree.descendants(app.selected).len()) + " items"@).len(),
        area.x + 3 + k < w,
    ensures
        sidebar_details_cells(s, w, h, app, area, row)[(row + 6) * w + area.x + 3 + k] == (
            (decimal(app.tree.descendants(app.selected).len()) + " items"@)[k] as int,
            sty(Some(MUTED), None, false),
        ),
{
    let text = decimal(app.tree.descendants(app.selected).len()) + " items"@;
    let x = area.x + 3;
    let y = row + 6;
    let i = y * w + x + k;
    assert(i / (w as int) == y && i % (w as int) == x + k) by (nonlinear_arith)
        requires i == y * w + x + k, 0 <= x + k < w, 0 <= y;
    assert(0 <= i < w * h) by (nonlinear_arith)
        requires i == y * w + x + k, 0 <= x + k < w, 0 <= y < h;
    let row2 = row + 1;
    let row3 = row2 + 2;
    let sel = app.tree.node(app.selected);
    let s8 = paint_region(s, w, span(area.x + 3, area.x + 3 + sat_sub(area.width as int, 6), row2, row2 + 1, '─' as int, sty(Some(PANEL_2), None, false)));
    let s9 = write_cells(s8, w, h, (area.x + 3) as nat, row3 as nat, "selected"@, sty(Some(FAINT), None, false));
    let s10 = write_cells(s9, w, h, (area.x + 3) as nat, (row3 + 1) as nat, truncated(sel.name@, sat_sub(area.width as int, 6) as nat), sty(Some(WHITE), None, true));
    let s11 = write_cells(s10, w, h, (area.x + 3) as nat, (row3 + 2) as nat, sel.kind.icon_text(), sty(Some(MUTED), None, false));
    let s12 = write_cells(s11, w, h, (area.x + 8) as nat, (row3 + 2) as nat, size_text(sel.size_bytes as nat), sty(Some(TEXT), None, false));
    let s13 = write_cells(s12, w, h, (area.x + 3) as nat, (row3 + 3) as nat, text, sty(Some(MUTED), None, false));
    let s14 = write_cells(s13, w, h, (area.x + 3) as nat, (row3 + 4) as nat, truncated(sel.path@, sat_sub(area.width as int, 6) as nat), sty(Some(FAINT), None, false));
    assert(s8.len() == s.len());
    assert(s12.len() == s.len());
    assert(s13[i] == (text[k] as int, sty(Some(MUTED), None, false)));
    assert(s14[i] == s13[i]);
}

} // verus!

use vstd::prelude::*;

use crate::text::{chars_of, char_at, push_char, push_str, push_decimal, decimal, parse_code, parsed_u16, split_on, lemma_split_nonempty};

verus! {

/// Columns of the captured screen.
pub const COLS: u16 = 140;
/// Rows of the captured screen.
pub const ROWS: u16 = 42;
/// Width of one cell in the picture.
pub const CELL_WIDTH: u16 = 9;
/// Height of one cell in the picture.
pub const CELL_HEIGHT: u16 = 18;

/// A 24-bit colour.
#[derive(Debug, Clone, Copy, PartialEq, Eq, Structural)]
pub struct Rgb {
    pub r: u8,
    pub g: u8,
    pub b: u8,
}

/// The background of the picture.
pub open spec fn backdrop() -> Rgb {
    Rgb { r: 40, g: 43, b: 48 }
}

/// The background of the picture.
pub fn background() -> (c: Rgb)
    ensures
        c == backdrop(),
{
    Rgb { r: 40, g: 43, b: 48 }
}

/// How a captured cell is drawn.
#[derive(Debug, Clone, Copy, PartialEq, Eq, Structural)]
pub struct Style {
    pub fg: Rgb,
    pub bg: Rgb,
    pub bold: bool,
    pub dim: bool,
}

/// The style that a reset gives back.
pub open spec fn plain_style() -> Style {
    Style { fg: Rgb { r: 230, g: 232, b: 236 }, bg: Rgb { r: 40, g: 43, b: 48 }, bold: false, dim: false }
}

impl Default for Style {
    fn default() -> (s: Self)
        ensures
            s == plain_style(),
    {
        Style { fg: Rgb { r: 230, g: 232, b: 236 }, bg: Rgb { r: 40, g: 43, b: 48 }, bold: false, dim: false }
    }
}

/// One captured character cell.
#[derive(Debug, Clone, Copy, PartialEq, Eq, Structural)]
pub struct Cell {
    pub ch: char,
    pub style: Style,
}

/// A blank cell.
pub open spec fn blank_cell() -> Cell {
    Cell { ch: ' ', style: plain_style() }
}

impl Default for Cell {
    fn default() -> (c: Self)
        ensures
            c == blank_cell(),
    {
        Cell { ch: ' ', style: Style::default() }
    }
}

/// The lower-case hexadecimal digit of `d`.
pub open spec fn hex_digit(d: nat) -> char {
    if d < 10 { ((d + 48) as u32) as char } else { ((d + 87) as u32) as char }
}

/// Two hexadecimal digits of a byte.
pub open spec fn hex2(v: u8) -> Seq<char> {
    seq![hex_digit(v as nat / 16), hex_digit(v as nat % 16)]
}

/// A colour as `#rrggbb`.
pub open spec fn hex_text(c: Rgb) -> Seq<char> {
    "#"@ + hex2(c.r) + hex2(c.g) + hex2(c.b)
}

fn hex_digit_char(d: u8) -> (c: char)
    requires
        d < 16,
    ensures
        c == hex_digit(d as nat),
{
    let digits: Vec<char> = vec!['0', '1', '2', '3', '4', '5', '6', '7', '8', '9', 'a', 'b', 'c', 'd', 'e', 'f'];
    let c = digits[d as usize];
    proof {
        let dd = d as nat;
        if dd < 10 {
            assert(hex_digit(dd) == ((dd + 48) as u32) as char);
        }
    }
    assert(c == hex_digit(d as nat)) by {
        assert(digits@ == seq!['0', '1', '2', '3', '4', '5', '6', '7', '8', '9', 'a', 'b', 'c', 'd', 'e', 'f']);
    }
    c
}

fn push_hex2(out: &mut String, v: u8)
    ensures
        final(out)@ == old(out)@ + hex2(v),
{
    push_char(out, hex_digit_char(v / 16));
    push_char(out, hex_digit_char(v % 16));
    assert(final(out)@ =~= old(out)@ + hex2(v));
}

/// Writes a colour as `#rrggbb`.
pub fn hex_color(c: Rgb) -> (s: String)
    ensures
        s@ == hex_text(c),
{
    let mut s = String::from_str("#");
    push_hex2(&mut s, c.r);
    push_hex2(&mut s, c.g);
    push_hex2(&mut s, c.b);
    assert(s@ =~= hex_text(c));
    s
}

/// What stands in XML text for the character `c`.
pub open spec fn xml_char(c: char) -> Seq<char> {
    if c == '&' {
        "&amp;"@
    } else if c == '<' {
        "&lt;"@
    } else if c == '>' {
        "&gt;"@
    } else if c == '"' {
        "&quot;"@
    } else {
        seq![c]
    }
}

/// `s` with `&`, `<`, `>` and `"` written as XML entities.
pub open spec fn xml_escaped(s: Seq<char>) -> Seq<char>
    decreases s.len(),
{
    if s.len() == 0 {
        Seq::empty()
    } else {
        xml_escaped(s.drop_last()) + xml_char(s.last())
    }
}

/// Escapes `value` for XML text and attribute values.
pub fn escape_xml(value: &str) -> (r: String)
    ensures
        r@ == xml_escaped(value@),
{
    let chars = chars_of(value);
    let mut out = String::new();
    for i in 0..chars.len()
        invariant
            chars@ == value@,
            out@ == xml_escaped(chars@.take(i as int)),
    {
        proof {
            assert(chars@.take(i + 1).drop_last() =~= chars@.take(i as int));
        }
        let c = chars[i];
        if c == '&' {
            push_str(&mut out, "&amp;");
        } else if c == '<' {
            push_str(&mut out, "&lt;");
        } else if c == '>' {
            push_str(&mut out, "&gt;");
        } else if c == '"' {
            push_str(&mut out, "&quot;");
        } else {
            push_char(&mut out, c);
        }
    }
    assert(chars@.take(chars.len() as int) =~= chars@);
    out
}

/// The sidebar's width in the picture for a screen `width` columns wide:
/// none below 124 columns, 34 below 144, else 31% kept between 34 and 46.
pub open spec fn picture_side_width(width: int) -> int {
    if width < 124 {
        0
    } else if width < 144 {
        34
    } else {
        let raw = width * 31 / 100;
        if raw < 34 { 34 } else if raw > 46 { 46 } else { raw }
    }
}

/// The sidebar's width in the picture.
pub fn screenshot_sidebar_width(width: u16) -> (r: u16)
    ensures
        r == picture_side_width(width as int),
{
    if width < 124 {
        0
    } else if width < 144 {
        34
    } else {
        let raw: u16 = ((width as u32) * 31 / 100) as u16;
        if raw < 34 { 34 } else if raw > 46 { 46 } else { raw }
    }
}

/// A rectangle of cells.
#[derive(Debug, Clone, Copy, PartialEq, Eq, Structural)]
pub struct SvgRect {
    pub x: u16,
    pub y: u16,
    pub width: u16,
    pub height: u16,
}

/// `a + b` capped at the largest `u16`.
pub open spec fn sat_add16(a: int, b: int) -> int {
    if a + b > 0xffff { 0xffff } else { a + b }
}

impl SvgRect {
    /// Whether cell `(x, y)` lies inside the rectangle.
    pub open spec fn holds(self, x: int, y: int) -> bool {
        &&& x >= self.x
        &&& x < sat_add16(self.x as int, self.width as int)
        &&& y >= self.y
        &&& y < sat_add16(self.y as int, self.height as int)
    }

    /// Whether cell `(x, y)` lies inside the rectangle.
    pub fn contains(self, x: u16, y: u16) -> (r: bool)
        ensures
            r == self.holds(x as int, y as int),
    {
        x >= self.x && x < self.x.saturating_add(self.width) && y >= self.y && y < self.y.saturating_add(self.height)
    }
}

/// The map's place in the picture: below the header, above the status
/// bar, left of the sidebar.
pub open spec fn map_area() -> SvgRect {
    SvgRect { x: 0, y: 4, width: (COLS - picture_side_width(COLS as int)) as u16, height: (ROWS - 6) as u16 }
}

/// The map's place in the picture.
pub fn map_rect() -> (r: SvgRect)
    ensures
        r == map_area(),
{
    let header_height: u16 = 4;
    let status_height: u16 = 2;
    let side_width = screenshot_sidebar_width(COLS);
    SvgRect {
        x: 0,
        y: header_height,
        width: COLS.saturating_sub(side_width),
        height: ROWS.saturating_sub(header_height + status_height),
    }
}

/// The value of a field, if it reads as a `u16`, as a sequence of zero or
/// one items.
pub open spec fn field_code(field: Seq<char>) -> Seq<u16> {
    match parsed_u16(field) {
        Some(v) => seq![v],
        None => Seq::empty(),
    }
}

/// The fields that read as a `u16`, in order.
pub open spec fn kept_codes(fields: Seq<Seq<char>>) -> Seq<u16>
    decreases fields.len(),
{
    if fields.len() == 0 {
        Seq::empty()
    } else {
        kept_codes(fields.drop_last()) + field_code(fields.last())
    }
}

/// The numbers of a select-graphic-rendition sequence: a lone 0 where it
/// is empty, else each field that reads as a `u16`.
pub open spec fn sgr_codes(code: Seq<char>) -> Seq<u16> {
    if code.len() == 0 {
        seq![0u16]
    } else {
        kept_codes(split_on(code, ';'))
    }
}

fn parse_codes(code: &str) -> (codes: Vec<u16>)
    ensures
        codes@ == sgr_codes(code@),
{
    let chars = chars_of(code);
    if chars.len() == 0 {
        let v: Vec<u16> = vec![0];
        assert(v@ =~= seq![0u16]);
        return v;
    }
    let mut codes: Vec<u16> = Vec::new();
    let mut field: Vec<char> = Vec::new();
    for i in 0..chars.len()
        invariant
            chars@ == code@,
            split_on(chars@.take(i as int), ';').len() >= 1,
            codes@ == kept_codes(split_on(chars@.take(i as int), ';').drop_last()),
            field@ == split_on(chars@.take(i as int), ';').last(),
    {
        let ghost prev = split_on(chars@.take(i as int), ';');
        proof {
            assert(chars@.take(i + 1).drop_last() =~= chars@.take(i as int));
            lemma_split_nonempty(chars@.take(i + 1), ';');
        }
        let c = chars[i];
        if c == ';' {
            let parsed = parse_code(&field);
            match parsed {
                Some(v) => codes.push(v),
                None => {},
            }
            field = Vec::new();
            proof {
                let next = split_on(chars@.take(i + 1), ';');
                assert(next == prev.push(Seq::empty()));
                assert(next.drop_last() =~= prev);
                assert(prev.drop_last().push(prev.last()) =~= prev);
                assert(kept_codes(prev) == kept_codes(prev.drop_last()) + field_code(prev.last()));
                assert(codes@ =~= kept_codes(prev));
                assert(field@ =~= next.last());
            }
        } else {
            field.push(c);
            proof {
                let next = split_on(chars@.take(i + 1), ';');
                assert(next.drop_last() =~= prev.drop_last());
            }
        }
    }
    let parsed = parse_code(&field);
    match parsed {
        Some(v) => codes.push(v),
        None => {},
    }
    proof {
        assert(chars@.take(chars.len() as int) =~= chars@);
        let all = split_on(chars@, ';');
        assert(kept_codes(all) == kept_codes(all.drop_last()) + field_code(all.last()));
        assert(codes@ =~= kept_codes(all));
    }
    codes
}

/// The colour of three numbers, each cut to its low byte.
pub open spec fn rgb_of(r: u16, g: u16, b: u16) -> Rgb {
    Rgb { r: (r % 256) as u8, g: (g % 256) as u8, b: (b % 256) as u8 }
}

/// `style` after the numbers `codes` from position `i` on: 0 resets, 1 sets
/// bold, 2 dim, 22 clears both, `38;2;r;g;b` and `48;2;r;g;b` set the
/// foreground and background colours; others are skipped.
pub open spec fn sgr_apply(style: Style, codes: Seq<u16>, i: int) -> Style
    decreases codes.len() - i,
{
    if i < 0 || i >= codes.len() {
        style
    } else if codes[i] == 0 {
        sgr_apply(plain_style(), codes, i + 1)
    } else if codes[i] == 1 {
        sgr_apply(Style { bold: true, ..style }, codes, i + 1)
    } else if codes[i] == 2 {
        sgr_apply(Style { dim: true, ..style }, codes, i + 1)
    } else if codes[i] == 22 {
        sgr_apply(Style { bold: false, dim: false, ..style }, codes, i + 1)
    } else if (codes[i] == 38 || codes[i] == 48) && i + 1 < codes.len() && codes[i + 1] == 2 {
        let next = if i + 4 < codes.len() {
            let c = rgb_of(codes[i + 2], codes[i + 3], codes[i + 4]);
            if codes[i] == 38 { Style { fg: c, ..style } } else { Style { bg: c, ..style } }
        } else {
            style
        };
        sgr_apply(next, codes, if i + 5 < codes.len() { i + 5 } else { codes.len() as int })
    } else {
        sgr_apply(style, codes, i + 1)
    }
}

/// Applies the select-graphic-rendition sequence `code` (what stands
/// between `ESC [` and `m`) to `style`.
pub fn apply_sgr(style: &mut Style, code: &str)
    ensures
        *final(style) == sgr_apply(*old(style), sgr_codes(code@), 0),
{
    let codes = parse_codes(code);
    let len = codes.len();
    let mut index: usize = 0;
    while index < len
        invariant
            len == codes@.len(),
            index <= len,
            sgr_apply(*style, codes@, index as int) == sgr_apply(*old(style), codes@, 0),
        decreases len - index,
    {
        let c = codes[index];
        if c == 0 {
            *style = Style::default();
            index = index + 1;
        } else if c == 1 {
            style.bold = true;
            index = index + 1;
        } else if c == 2 {
            style.dim = true;
            index = index + 1;
        } else if c == 22 {
            style.bold = false;
            style.dim = false;
            index = index + 1;
        } else if (c == 38 || c == 48) && len - index > 1 && codes[index + 1] == 2 {
            let ghost before = *style;
            let ghost i = index as int;
            if len - index > 4 {
                let rgb = Rgb {
                    r: (codes[index + 2] % 256) as u8,
                    g: (codes[index + 3] % 256) as u8,
                    b: (codes[index + 4] % 256) as u8,
                };
                if c == 38 {
                    style.fg = rgb;
                } else {
                    style.bg = rgb;
                }
            }
            index = if len - index > 5 { index + 5 } else { len };
            proof {
                let next = if i + 4 < codes@.len() {
                    let col = rgb_of(codes@[i + 2], codes@[i + 3], codes@[i + 4]);
                    if codes@[i] == 38 { Style { fg: col, ..before } } else { Style { bg: col, ..before } }
                } else {
                    before
                };
                assert(*style == next);

            }
        } else {
            index = index + 1;
        }
    }
}

/// Where a reader of terminal output stands.
#[derive(PartialEq, Eq, Structural)]
pub enum ReadMode {
    /// Plain text.
    Text,
    /// Just after an escape character.
    Escape,
    /// Inside a control sequence, after `ESC [`.
    Control,
}

/// What a reader of terminal output has gathered.
pub struct AnsiState {
    pub mode: ReadMode,
    pub code: Seq<char>,
    pub style: Style,
    pub row: nat,
    pub col: nat,
    pub cells: Seq<Seq<Cell>>,
    pub stopped: bool,
}

/// A blank screen of `ROWS` rows of `COLS` cells.
pub open spec fn blank_screen() -> Seq<Seq<Cell>> {
    Seq::new(ROWS as nat, |r: int| Seq::new(COLS as nat, |c: int| blank_cell()))
}

/// Whether `c` is an ASCII letter.
pub open spec fn ascii_letter(c: char) -> bool {
    ('A' <= c && c <= 'Z') || ('a' <= c && c <= 'z')
}

/// The reader after one more character.
pub open spec fn read_step(st: AnsiState, ch: char) -> AnsiState {
    if st.stopped {
        st
    } else {
        match st.mode {
            ReadMode::Text => {
                if ch == '\x1b' {
                    AnsiState { mode: ReadMode::Escape, ..st }
                } else if ch == '\r' {
                    st
                } else if ch == '\n' {
                    AnsiState { row: st.row + 1, col: 0, stopped: st.row + 1 >= ROWS, ..st }
                } else {
                    let cells = if st.row < ROWS && st.col < COLS {
                        st.cells.update(st.row as int, st.cells[st.row as int].update(st.col as int, Cell { ch: ch, style: st.style }))
                    } else {
                        st.cells
                    };
                    AnsiState { cells: cells, col: st.col + 1, ..st }
                }
            },
            ReadMode::Escape => {
                if ch == '[' {
                    AnsiState { mode: ReadMode::Control, code: Seq::empty(), ..st }
                } else {
                    AnsiState { mode: ReadMode::Text, ..st }
                }
            },
            ReadMode::Control => {
                if ascii_letter(ch) {
                    let style = if ch == 'm' { sgr_apply(st.style, sgr_codes(st.code), 0) } else { st.style };
                    AnsiState { mode: ReadMode::Text, style: style, ..st }
                } else {
                    AnsiState { code: st.code.push(ch), ..st }
                }
            },
        }
    }
}

/// The reader after the characters `s`, from a blank screen.
pub open spec fn read_ansi(s: Seq<char>) -> AnsiState
    decreases s.len(),
{
    if s.len() == 0 {
        AnsiState {
            mode: ReadMode::Text,
            code: Seq::empty(),
            style: plain_style(),
            row: 0,
            col: 0,
            cells: blank_screen(),
            stopped: false,
        }
    } else {
        read_step(read_ansi(s.drop_last()), s.last())
    }
}

proof fn lemma_stopped_stays(s: Seq<char>, k: int)
    requires
        0 <= k <= s.len(),
        read_ansi(s.take(k)).stopped,
    ensures
        read_ansi(s) == read_ansi(s.take(k)),
    decreases s.len(),
{
    if k == s.len() {
        assert(s.take(k) =~= s);
    } else {
        let t = s.drop_last();
        assert(t.take(k) =~= s.take(k));
        lemma_stopped_stays(t, k);
    }
}

/// Whether the rows `v` hold the cells `g`.
pub open spec fn shows(v: Seq<Vec<Cell>>, g: Seq<Seq<Cell>>) -> bool {
    &&& v.len() == g.len()
    &&& forall|k: int| 0 <= k < v.len() ==> (#[trigger] v[k])@ == g[k]
}

/// Sets the cell at `(row, col)` of a grid.
fn set_cell(cells: &mut Vec<Vec<Cell>>, row: usize, col: usize, value: Cell)
    requires
        row < old(cells)@.len(),
        col < old(cells)@[row as int]@.len(),
    ensures
        final(cells)@.len() == old(cells)@.len(),
        forall|k: int| 0 <= k < final(cells)@.len() ==> (#[trigger] final(cells)@[k])@ == if k == row {
            old(cells)@[k]@.update(col as int, value)
        } else {
            old(cells)@[k]@
        },
{
    let mut line: Vec<Cell> = Vec::new();
    cells.set_and_swap(row, &mut line);
    line.set(col, value);
    cells.set(row, line);
}

/// Reads terminal output into a screen of `ROWS` by `COLS` cells: text is
/// placed from the top left, a line feed starts the next row, carriage
/// returns are skipped, and select-graphic-rendition sequences set the
/// style of what follows.
pub fn parse_ansi(input: &str) -> (cells: Vec<Vec<Cell>>)
    ensures
        shows(cells@, read_ansi(input@).cells),
{
    let chars = chars_of(input);
    let mut screen: Vec<Vec<Cell>> = Vec::new();
    for r in 0..ROWS
        invariant
            screen@.len() == r,
            forall|k: int| 0 <= k < r ==> (#[trigger] screen@[k])@ == Seq::new(COLS as nat, |c: int| blank_cell()),
    {
        let mut line: Vec<Cell> = Vec::new();
        for c in 0..COLS
            invariant
                line@ == Seq::new(c as nat, |j: int| blank_cell()),
        {
            line.push(Cell::default());
            assert(line@ =~= Seq::new((c + 1) as nat, |j: int| blank_cell()));
        }
        screen.push(line);
    }
    assert(shows(screen@, blank_screen()));
    let mut style = Style::default();
    let mut mode = ReadMode::Text;
    let mut code = String::new();
    let mut row: usize = 0;
    let mut col: usize = 0;
    let mut i: usize = 0;
    assert(chars@.take(0) =~= Seq::<char>::empty());
    while i < chars.len()
        invariant
            chars@ == input@,
            i <= chars@.len(),
            col <= i,
            row < ROWS,
            ({
                let st = read_ansi(chars@.take(i as int));
                &&& !st.stopped
                &&& st.mode == mode
                &&& st.code == code@
                &&& st.style == style
                &&& st.row == row
                &&& st.col == col
                &&& shows(screen@, st.cells)
                &&& st.cells.len() == ROWS
                &&& forall|k: int| 0 <= k < ROWS ==> (#[trigger] st.cells[k]).len() == COLS
            }),
        decreases chars@.len() - i,
    {
        let ch = char_at(&chars, i);
        let ghost before = read_ansi(chars@.take(i as int));
        proof {
            assert(chars@.take(i + 1).drop_last() =~= chars@.take(i as int));
            assert(chars@.take(i + 1).last() == ch);
        }
        if mode == ReadMode::Text {
            if ch == '\x1b' {
                mode = ReadMode::Escape;
            } else if ch == '\r' {
            } else if ch == '\n' {
                row = row + 1;
                col = 0;
                if row >= ROWS as usize {
                    proof {
                        lemma_stopped_stays(chars@, i + 1);
                        assert(chars@.take(chars@.len() as int) =~= chars@);
                    }
                    return screen;
                }
            } else {
                if row < ROWS as usize && col < COLS as usize {
                    let ghost pre = screen@;
                    assert(pre[row as int]@ == before.cells[row as int]);
                    set_cell(&mut screen, row, col, Cell { ch: ch, style: style });
                    proof {
                        let next = before.cells.update(row as int, before.cells[row as int].update(col as int, Cell { ch: ch, style: style }));
                        assert forall|k: int| 0 <= k < screen@.len() implies (#[trigger] screen@[k])@ == next[k] by {
                            assert(pre[k]@ == before.cells[k]);
                        }
                        assert forall|k: int| 0 <= k < ROWS implies (#[trigger] next[k]).len() == COLS by {
                            assert(before.cells[k].len() == COLS);
                        }
                    }
                }
                col = col + 1;
            }
        } else if mode == ReadMode::Escape {
            if ch == '[' {
                mode = ReadMode::Control;
                code = String::new();
            } else {
                mode = ReadMode::Text;
            }
        } else {
            if ('A' <= ch && ch <= 'Z') || ('a' <= ch && ch <= 'z') {
                if ch == 'm' {
                    apply_sgr(&mut style, code.as_str());
                }
                mode = ReadMode::Text;
            } else {
                push_char(&mut code, ch);
            }
        }
        i = i + 1;
    }
    proof {
        assert(chars@.take(chars@.len() as int) =~= chars@);
    }
    screen
}

/// An SVG rectangle filled with `fill`, on a line of its own.
pub open spec fn rect_svg(x: nat, y: nat, w: nat, h: nat, fill: Rgb) -> Seq<char> {
    "<rect x=\""@ + decimal(x) + "\" y=\""@ + decimal(y) + "\" width=\""@ + decimal(w) + "\" height=\""@ + decimal(h)
        + "\" fill=\""@ + hex_text(fill) + "\"/>\n"@
}

fn push_rect(out: &mut String, x: u16, y: u16, w: u16, h: u16, fill: Rgb)
    ensures
        final(out)@ == old(out)@ + rect_svg(x as nat, y as nat, w as nat, h as nat, fill),
{
    push_str(out, "<rect x=\"");
    push_decimal(out, x as u64);
    push_str(out, "\" y=\"");
    push_decimal(out, y as u64);
    push_str(out, "\" width=\"");
    push_decimal(out, w as u64);
    push_str(out, "\" height=\"");
    push_decimal(out, h as u64);
    push_str(out, "\" fill=\"");
    let color = hex_color(fill);
    push_str(out, color.as_str());
    push_str(out, "\"/>\n");
    assert(final(out)@ =~= old(out)@ + rect_svg(x as nat, y as nat, w as nat, h as nat, fill));
}

/// The characters of a run of cells.
pub open spec fn cell_chars(cells: Seq<Cell>) -> Seq<char> {
    Seq::new(cells.len(), |i: int| cells[i].ch)
}

/// An SVG text of the characters `text`, drawn in `style`, starting at
/// cell `(x, y)`, on a line of its own.
pub open spec fn text_svg(x: nat, y: nat, style: Style, text: Seq<char>) -> Seq<char> {
    "<text x=\""@ + decimal(x * 9) + "\" y=\""@ + decimal(y * 18 + 2) + "\" fill=\""@ + hex_text(style.fg) + "\""@
        + (if style.bold { " font-weight=\"700\""@ } else { Seq::empty() })
        + (if style.dim { " opacity=\"0.65\""@ } else { Seq::empty() })
        + ">"@ + xml_escaped(text) + "</text>\n"@
}

/// The background rectangles of row `r` from cell `start` on: one for
/// each run of cells with the same background.
pub open spec fn bg_row(row: Seq<Cell>, r: nat, start: int) -> Seq<char>
    decreases row.len() - start, 0int,
{
    if start < 0 || start >= row.len() {
        Seq::empty()
    } else {
        bg_scan(row, r, start, start + 1)
    }
}

/// The background rectangles of row `r`, where a run starts at cell
/// `start` and reaches at least cell `i`.
pub open spec fn bg_scan(row: Seq<Cell>, r: nat, start: int, i: int) -> Seq<char>
    decreases row.len() - i, 1int,
{
    if 0 <= start < i < row.len() && row[i].style.bg == row[start].style.bg {
        bg_scan(row, r, start, i + 1)
    } else if 0 <= start < i <= row.len() {
        rect_svg((start * 9) as nat, r * 18, ((i - start) * 9) as nat, 18, row[start].style.bg) + bg_row(row, r, i)
    } else {
        Seq::empty()
    }
}

/// The texts of row `r` from cell `start` on, outside `map`: one for each
/// run of non-blank cells with the same style.
pub open spec fn text_row(row: Seq<Cell>, r: nat, start: int, map: SvgRect) -> Seq<char>
    decreases row.len() - start, 0int,
{
    if start < 0 || start >= row.len() {
        Seq::empty()
    } else if map.holds(start, r as int) {
        text_row(row, r, start + 1, map)
    } else {
        text_scan(row, r, start, start + 1, map)
    }
}

/// The texts of row `r`, where a run starts at cell `start` and reaches at
/// least cell `i`.
pub open spec fn text_scan(row: Seq<Cell>, r: nat, start: int, i: int, map: SvgRect) -> Seq<char>
    decreases row.len() - i, 1int,
{
    if 0 <= start < i < row.len() && row[i].style == row[start].style && row[i].ch != ' ' && row[start].ch != ' '
        && !map.holds(i, r as int) {
        text_scan(row, r, start, i + 1, map)
    } else if 0 <= start < i <= row.len() {
        (if row[start].ch != ' ' {
            text_svg(start as nat, r, row[start].style, cell_chars(row.subrange(start, i)))
        } else {
            Seq::empty()
        }) + text_row(row, r, i, map)
    } else {
        Seq::empty()
    }
}

/// The background rectangles of the first `k` rows.
pub open spec fn bg_rows(cells: Seq<Seq<Cell>>, k: int) -> Seq<char>
    decreases k,
{
    if k <= 0 || k > cells.len() {
        Seq::empty()
    } else {
        bg_rows(cells, k - 1) + bg_row(cells[k - 1], (k - 1) as nat, 0)
    }
}

/// The texts of the first `k` rows.
pub open spec fn text_rows(cells: Seq<Seq<Cell>>, k: int, map: SvgRect) -> Seq<char>
    decreases k,
{
    if k <= 0 || k > cells.len() {
        Seq::empty()
    } else {
        text_rows(cells, k - 1, map) + text_row(cells[k - 1], (k - 1) as nat, 0, map)
    }
}

/// The opening of the picture: its size, its background and the font.
pub open spec fn svg_header() -> Seq<char> {
    "<svg xmlns=\"http://www.w3.org/2000/svg\" width=\""@ + decimal(1260) + "\" height=\""@ + decimal(756)
        + "\" viewBox=\"0 0 "@ + decimal(1260) + " "@ + decimal(756) + "\">\n"@
        + "<rect width=\"100%\" height=\"100%\" fill=\"#282b30\"/>\n<style>\ntext {\n  font-family: \"SFMono-Regular\", \"Cascadia Mono\", \"Liberation Mono\", Menlo, Consolas, monospace;\n  font-size: 15px;\n  dominant-baseline: text-before-edge;\n  white-space: pre;\n}\n</style>\n"@
}

/// The picture of a captured screen: the header, the cells' backgrounds,
/// the map's backdrop, the map itself (`map_svg`), the texts outside the
/// map, and the closing tag.
pub open spec fn svg_picture(cells: Seq<Seq<Cell>>, map_svg: Seq<char>) -> Seq<char> {
    let map = map_area();
    svg_header() + bg_rows(cells, cells.len() as int)
        + rect_svg((map.x * 9) as nat, (map.y * 18) as nat, (map.width * 9) as nat, (map.height * 18) as nat, backdrop())
        + map_svg + text_rows(cells, cells.len() as int, map) + "</svg>\n"@
}

fn push_bg_row(out: &mut String, row: &Vec<Cell>, r: usize)
    requires
        row@.len() <= 7281,
        r * 18 <= 0xffff,
    ensures
        final(out)@ == old(out)@ + bg_row(row@, r as nat, 0),
{
    let len = row.len();
    let mut start: usize = 0;
    while start < len
        invariant
            len == row@.len(),
            len <= 7281,
            r * 18 <= 0xffff,
            start <= len,
            out@ + bg_row(row@, r as nat, start as int) == old(out)@ + bg_row(row@, r as nat, 0),
        decreases len - start,
    {
        let bg = row[start].style.bg;
        let mut end = start + 1;
        while end < len && row[end].style.bg == bg
            invariant
                len == row@.len(),
                start < end <= len,
                bg == row@[start as int].style.bg,
                bg_scan(row@, r as nat, start as int, end as int) == bg_row(row@, r as nat, start as int),
            decreases len - end,
        {
            end = end + 1;
        }
        let ghost before = out@;
        push_rect(out, (start * 9) as u16, (r * 18) as u16, ((end - start) * 9) as u16, 18, bg);
        proof {
            let rect = rect_svg((start * 9) as nat, (r * 18) as nat, ((end - start) * 9) as nat, 18, bg);
            assert(bg_scan(row@, r as nat, start as int, end as int) == rect + bg_row(row@, r as nat, end as int));
            assert(out@ + bg_row(row@, r as nat, end as int) =~= before + (rect + bg_row(row@, r as nat, end as int)));
        }
        start = end;
    }
}

/// The character of cell `k`.
fn cell_char(row: &Vec<Cell>, k: usize) -> (c: char)
    requires
        k < row@.len(),
    ensures
        c == row@[k as int].ch,
{
    row[k].ch
}

/// The characters of cells `start..end`.
fn run_text(row: &Vec<Cell>, start: usize, end: usize) -> (text: String)
    requires
        start <= end <= row@.len(),
    ensures
        text@ == cell_chars(row@.subrange(start as int, end as int)),
{
    let mut text = String::new();
    for k in start..end
        invariant
            end <= row@.len(),
            text@ == cell_chars(row@.subrange(start as int, k as int)),
    {
        push_char(&mut text, cell_char(row, k));
        assert(text@ =~= cell_chars(row@.subrange(start as int, k + 1)));
    }
    text
}

#[verifier::rlimit(40)]
fn push_text(out: &mut String, row: &Vec<Cell>, start: usize, end: usize, r: usize)
    requires
        start < end <= row@.len(),
        start * 9 <= 0xffff,
        r * 18 + 2 <= 0xffff,
    ensures
        final(out)@ == old(out)@ + text_svg(start as nat, r as nat, row@[start as int].style, cell_chars(row@.subrange(start as int, end as int))),
{
    let style = row[start].style;
    let text = run_text(row, start, end);
    push_str(out, "<text x=\"");
    push_decimal(out, (start * 9) as u64);
    push_str(out, "\" y=\"");
    push_decimal(out, (r * 18 + 2) as u64);
    push_str(out, "\" fill=\"");
    let color = hex_color(style.fg);
    push_str(out, color.as_str());
    push_str(out, "\"");
    let ghost mid = out@;
    if style.bold {
        push_str(out, " font-weight=\"700\"");
    } else {
        assert(out@ =~= mid + Seq::<char>::empty());
    }
    let ghost mid2 = out@;
    if style.dim {
        push_str(out, " opacity=\"0.65\"");
    } else {
        assert(out@ =~= mid2 + Seq::<char>::empty());
    }
    push_str(out, ">");
    let escaped = escape_xml(text.as_str());
    push_str(out, escaped.as_str());
    push_str(out, "</text>\n");
    assert(final(out)@ =~= old(out)@ + text_svg(start as nat, r as nat, style, cell_chars(row@.subrange(start as int, end as int))));
}

fn push_text_row(out: &mut String, row: &Vec<Cell>, r: usize, map: SvgRect)
    requires
        row@.len() <= 7281,
        r * 18 + 2 <= 0xffff,
    ensures
        final(out)@ == old(out)@ + text_row(row@, r as nat, 0, map),
{
    let len = row.len();
    let mut start: usize = 0;
    while start < len
        invariant
            len == row@.len(),
            len <= 7281,
            r * 18 + 2 <= 0xffff,
            start <= len,
            out@ + text_row(row@, r as nat, start as int, map) == old(out)@ + text_row(row@, r as nat, 0, map),
        decreases len - start,
    {
        if map.contains(start as u16, r as u16) {
            start = start + 1;
        } else {
            let style = row[start].style;
            let blank = cell_char(row, start) == ' ';
            let mut end = start + 1;
            while end < len && row[end].style == style && cell_char(row, end) != ' ' && !blank
                && !map.contains(end as u16, r as u16)
                invariant
                    len == row@.len(),
                    len <= 7281,
                    start < end <= len,
                    style == row@[start as int].style,
                    blank == (row@[start as int].ch == ' '),
                    r * 18 + 2 <= 0xffff,
                    text_scan(row@, r as nat, start as int, end as int, map) == text_row(row@, r as nat, start as int, map),
                decreases len - end,
            {
                end = end + 1;
            }
            let ghost before = out@;
            if !blank {
                push_text(out, row, start, end, r);
            }
            proof {
                let piece = if row@[start as int].ch != ' ' {
                    text_svg(start as nat, r as nat, row@[start as int].style, cell_chars(row@.subrange(start as int, end as int)))
                } else {
                    Seq::empty()
                };
                assert(text_scan(row@, r as nat, start as int, end as int, map) == piece + text_row(row@, r as nat, end as int, map));
                assert(out@ =~= before + piece);
                assert(out@ + text_row(row@, r as nat, end as int, map) =~= before + (piece + text_row(row@, r as nat, end as int, map)));
            }
            start = end;
        }
    }
}

/// The rows of a grid, as sequences.
pub open spec fn rows_of(v: Seq<Vec<Cell>>) -> Seq<Seq<Cell>> {
    Seq::new(v.len(), |k: int| v[k]@)
}

/// Draws a captured screen as an SVG picture; `map_svg` is the disk map,
/// drawn over the map's backdrop before the texts.
pub fn cells_to_svg(cells: &Vec<Vec<Cell>>, map_svg: &str) -> (svg: String)
    requires
        cells@.len() <= 3641,
        forall|k: int| 0 <= k < cells@.len() ==> (#[trigger] cells@[k])@.len() <= 7281,
    ensures
        svg@ == svg_picture(rows_of(cells@), map_svg@),
{
    let ghost g = rows_of(cells@);
    let map = map_rect();
    let width: u32 = (COLS as u32) * (CELL_WIDTH as u32);
    let height: u32 = (ROWS as u32) * (CELL_HEIGHT as u32);
    let mut svg = String::from_str("<svg xmlns=\"http://www.w3.org/2000/svg\" width=\"");
    push_decimal(&mut svg, width as u64);
    push_str(&mut svg, "\" height=\"");
    push_decimal(&mut svg, height as u64);
    push_str(&mut svg, "\" viewBox=\"0 0 ");
    push_decimal(&mut svg, width as u64);
    push_str(&mut svg, " ");
    push_decimal(&mut svg, height as u64);
    push_str(&mut svg, "\">\n");
    push_str(&mut svg, "<rect width=\"100%\" height=\"100%\" fill=\"#282b30\"/>\n<style>\ntext {\n  font-family: \"SFMono-Regular\", \"Cascadia Mono\", \"Liberation Mono\", Menlo, Consolas, monospace;\n  font-size: 15px;\n  dominant-baseline: text-before-edge;\n  white-space: pre;\n}\n</style>\n");
    assert(svg@ =~= svg_header());
    let ghost head = svg@;

    for row_index in 0..cells.len()
        invariant
            g == rows_of(cells@),
            cells@.len() <= 3641,
            forall|k: int| 0 <= k < cells@.len() ==> (#[trigger] cells@[k])@.len() <= 7281,
            svg@ == head + bg_rows(g, row_index as int),
    {
        assert(cells@[row_index as int]@.len() <= 7281);
        push_bg_row(&mut svg, &cells[row_index], row_index);
        proof {
            assert(g[row_index as int] == cells@[row_index as int]@);
            assert(svg@ =~= head + bg_rows(g, row_index + 1));
        }
    }
    let ghost after_bg = svg@;
    push_rect(&mut svg, map.x * CELL_WIDTH, map.y * CELL_HEIGHT, map.width * CELL_WIDTH, map.height * CELL_HEIGHT, background());
    push_str(&mut svg, map_svg);
    let ghost before_text = svg@;

    for row_index in 0..cells.len()
        invariant
            g == rows_of(cells@),
            map == map_area(),
            cells@.len() <= 3641,
            forall|k: int| 0 <= k < cells@.len() ==> (#[trigger] cells@[k])@.len() <= 7281,
            svg@ == before_text + text_rows(g, row_index as int, map),
    {
        assert(cells@[row_index as int]@.len() <= 7281);
        push_text_row(&mut svg, &cells[row_index], row_index, map);
        proof {
            assert(g[row_index as int] == cells@[row_index as int]@);
            assert(svg@ =~= before_text + text_rows(g, row_index + 1, map));
        }
    }
    push_str(&mut svg, "</svg>\n");
    assert(svg@ =~= svg_picture(g, map_svg@));
    svg
}

/// Escaped text holds no `<`, `>` or `"`, so it can stand in XML text and
/// in a quoted attribute.
pub proof fn lemma_escaped_is_safe(s: Seq<char>)
    ensures
        forall|i: int| 0 <= i < xml_escaped(s).len() ==> {
            let c = #[trigger] xml_escaped(s)[i];
            c != '<' && c != '>' && c != '"'
        },
    decreases s.len(),
{
    if s.len() > 0 {
        lemma_escaped_is_safe(s.drop_last());
        let prev = xml_escaped(s.drop_last());
        let tail = xml_char(s.last());
        reveal_strlit("&amp;");
        reveal_strlit("&lt;");
        reveal_strlit("&gt;");
        reveal_strlit("&quot;");
        assert forall|i: int| 0 <= i < xml_escaped(s).len() implies {
            let c = #[trigger] xml_escaped(s)[i];
            c != '<' && c != '>' && c != '"'
        } by {
            if i < prev.len() {
                assert(xml_escaped(s)[i] == prev[i]);
            } else {
                assert(xml_escaped(s)[i] == tail[i - prev.len()]);
            }
        }
    }
}

/// Whether `part` occurs in `whole` as one contiguous piece.
pub open spec fn holds_part(whole: Seq<char>, part: Seq<char>) -> bool {
    exists|a: int| 0 <= a && a + part.len() <= whole.len() && #[trigger] whole.subrange(a, a + part.len()) == part
}

/// Whether `out` holds the text element of a run of cells `s..e` of row
/// `r` that takes in cell `c`: an element at `y = r * 18 + 2` whose text
/// holds that cell's character.
pub open spec fn covers_cell(out: Seq<char>, row: Seq<Cell>, r: nat, c: int) -> bool {
    exists|s: int, e: int|
        0 <= s <= c < e <= row.len() && #[trigger] holds_part(out, text_svg(s as nat, r, row[s].style, cell_chars(row.subrange(s, e))))
}

proof fn lemma_part_extends(x: Seq<char>, y: Seq<char>, p: Seq<char>)
    requires
        holds_part(y, p),
    ensures
        holds_part(x + y, p),
        holds_part(y + x, p),
{
    let a = choose|a: int| 0 <= a && a + p.len() <= y.len() && #[trigger] y.subrange(a, a + p.len()) == p;
    assert((x + y).subrange(x.len() + a, x.len() + a + p.len()) =~= p);
    assert((y + x).subrange(a, a + p.len()) =~= p);
}

proof fn lemma_covers_extends(x: Seq<char>, y: Seq<char>, row: Seq<Cell>, r: nat, c: int)
    requires
        covers_cell(y, row, r, c),
    ensures
        covers_cell(x + y, row, r, c),
        covers_cell(y + x, row, r, c),
{
    let (s, e) = choose|s: int, e: int|
        0 <= s <= c < e <= row.len() && #[trigger] holds_part(y, text_svg(s as nat, r, row[s].style, cell_chars(row.subrange(s, e))));
    let p = text_svg(s as nat, r, row[s].style, cell_chars(row.subrange(s, e)));
    lemma_part_extends(x, y, p);
    assert(holds_part(x + y, p));
    assert(holds_part(y + x, p));
}

proof fn lemma_row_covers(row: Seq<Cell>, r: nat, s: int, map: SvgRect, c: int)
    requires
        0 <= s <= c < row.len(),
        row[c].ch != ' ',
        !map.holds(c, r as int),
    ensures
        covers_cell(text_row(row, r, s, map), row, r, c),
    decreases row.len() - s, 0int,
{
    if map.holds(s, r as int) {
        lemma_row_covers(row, r, s + 1, map, c);
    } else {
        lemma_scan_covers(row, r, s, s + 1, map, c);
    }
}

proof fn lemma_scan_covers(row: Seq<Cell>, r: nat, start: int, i: int, map: SvgRect, c: int)
    requires
        0 <= start < i <= row.len(),
        start <= c < row.len(),
        row[c].ch != ' ',
        !map.holds(c, r as int),
        c < i ==> row[start].ch != ' ',
    ensures
        covers_cell(text_scan(row, r, start, i, map), row, r, c),
    decreases row.len() - i, 1int,
{
    if i < row.len() && row[i].style == row[start].style && row[i].ch != ' ' && row[start].ch != ' ' && !map.holds(i, r as int) {
        lemma_scan_covers(row, r, start, i + 1, map, c);
    } else {
        let rest = text_row(row, r, i, map);
        if c < i {
            let piece = text_svg(start as nat, r, row[start].style, cell_chars(row.subrange(start, i)));
            assert(text_scan(row, r, start, i, map) == piece + rest);
            assert((piece + rest).subrange(0int, 0int + piece.len()) =~= piece);
            assert(holds_part(piece + rest, piece));
        } else {
            lemma_row_covers(row, r, i, map, c);
            let piece = if row[start].ch != ' ' {
                text_svg(start as nat, r, row[start].style, cell_chars(row.subrange(start, i)))
            } else {
                Seq::empty()
            };
            assert(text_scan(row, r, start, i, map) == piece + rest);
            lemma_covers_extends(piece, rest, row, r, c);
        }
    }
}

proof fn lemma_rows_cover(cells: Seq<Seq<Cell>>, k: int, map: SvgRect, r: int, c: int)
    requires
        0 <= r < k <= cells.len(),
        0 <= c < cells[r].len(),
        cells[r][c].ch != ' ',
        !map.holds(c, r),
    ensures
        covers_cell(text_rows(cells, k, map), cells[r], r as nat, c),
    decreases k,
{
    let before = text_rows(cells, k - 1, map);
    let last = text_row(cells[k - 1], (k - 1) as nat, 0, map);
    assert(text_rows(cells, k, map) == before + last);
    if r == k - 1 {
        lemma_row_covers(cells[r], r as nat, 0, map, c);
        lemma_covers_extends(before, last, cells[r], r as nat, c);
    } else {
        lemma_rows_cover(cells, k - 1, map, r, c);
        lemma_covers_extends(last, before, cells[r], r as nat, c);
    }
}

/// The picture draws the text of every row: each cell that is not blank
/// and lies outside the map is taken into a text element of its row, at
/// `y = r * 18 + 2` for row `r`, the last row included.
pub proof fn lemma_svg_draws_every_row(cells: Seq<Seq<Cell>>, map_svg: Seq<char>, r: int, c: int)
    requires
        0 <= r < cells.len(),
        0 <= c < cells[r].len(),
        cells[r][c].ch != ' ',
        !map_area().holds(c, r),
    ensures
        covers_cell(svg_picture(cells, map_svg), cells[r], r as nat, c),
{
    let map = map_area();
    let t = text_rows(cells, cells.len() as int, map);
    lemma_rows_cover(cells, cells.len() as int, map, r, c);
    let head = svg_header() + bg_rows(cells, cells.len() as int)
        + rect_svg((map.x * 9) as nat, (map.y * 18) as nat, (map.width * 9) as nat, (map.height * 18) as nat, backdrop())
        + map_svg;
    lemma_covers_extends(head, t, cells[r], r as nat, c);
    lemma_covers_extends("</svg>\n"@, head + t, cells[r], r as nat, c);
    assert(svg_picture(cells, map_svg) == (head + t) + "</svg>\n"@);
}

} // verus!

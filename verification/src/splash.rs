use vstd::prelude::*;

use crate::text::{chars_of, push_char, push_str, push_decimal, decimal, join, views, join_strings, string_from_chars};

verus! {

/// `n` spaces.
pub open spec fn spaces(n: nat) -> Seq<char> {
    Seq::new(n, |i: int| ' ')
}

/// Whether every character of `s` is ASCII.
pub open spec fn ascii(s: Seq<char>) -> bool {
    forall|i: int| 0 <= i < s.len() ==> (s[i] as u32) < 128
}

/// After reading `s`: how many characters show on screen, and whether the
/// reader stands inside an escape sequence (from ESC up to the next `m`).
pub open spec fn scan_state(s: Seq<char>) -> (nat, bool)
    decreases s.len(),
{
    if s.len() == 0 {
        (0, false)
    } else {
        let prev = scan_state(s.drop_last());
        let ch = s.last();
        if ch == '\x1b' {
            (prev.0, true)
        } else if prev.1 && ch == 'm' {
            (prev.0, false)
        } else if !prev.1 {
            (prev.0 + 1, false)
        } else {
            prev
        }
    }
}

/// The number of characters of `s` that show on screen.
pub open spec fn visible(s: Seq<char>) -> nat {
    scan_state(s).0
}

proof fn lemma_visible_le(s: Seq<char>)
    ensures
        visible(s) <= s.len(),
    decreases s.len(),
{
    if s.len() > 0 {
        lemma_visible_le(s.drop_last());
    }
}

/// Counts the characters of `text` that show on screen, skipping escape
/// sequences.
pub fn visible_width(text: &str) -> (w: usize)
    ensures
        w == visible(text@),
{
    let chars = chars_of(text);
    let mut width: usize = 0;
    let mut escape = false;
    for i in 0..chars.len()
        invariant
            chars@ == text@,
            (width as nat, escape) == scan_state(chars@.take(i as int)),
            width <= i,
    {
        proof {
            assert(chars@.take(i + 1).drop_last() =~= chars@.take(i as int));
        }
        let ch = chars[i];
        if ch == '\x1b' {
            escape = true;
        } else if escape && ch == 'm' {
            escape = false;
        } else if !escape {
            width = width + 1;
        }
    }
    assert(chars@.take(chars.len() as int) =~= chars@);
    width
}

/// `value` cut to `width` characters, the last of them an ellipsis.
pub open spec fn shortened(value: Seq<char>, width: nat) -> Seq<char> {
    if value.len() <= width {
        value
    } else {
        value.take(if width >= 1 { width - 1 } else { 0 }) + "…"@
    }
}

/// Cuts `value` to at most `width` characters (at least one), ending a cut
/// with an ellipsis.
pub fn truncate(value: &str, width: usize) -> (r: String)
    ensures
        r@ == shortened(value@, width as nat),
{
    let chars = chars_of(value);
    if chars.len() <= width {
        String::from_str(value)
    } else {
        let keep: usize = if width >= 1 { width - 1 } else { 0 };
        let mut kept: Vec<char> = Vec::new();
        for i in 0..keep
            invariant
                keep < chars@.len(),
                kept@ == chars@.take(i as int),
        {
            kept.push(chars[i]);
            assert(chars@.take(i + 1) =~= chars@.take(i as int).push(chars@[i as int]));
        }
        let mut out = string_from_chars(&kept);
        push_str(&mut out, "…");
        out
    }
}

/// The colours that the ring around the logo cycles through.
pub open spec fn arc_colors() -> Seq<nat> {
    seq![81nat, 75, 69, 99, 238, 211, 215, 179, 150, 119, 114]
}

/// A ring segment drawn in 256-colour `color`.
pub open spec fn segment(color: nat) -> Seq<char> {
    "\x1b[38;5;"@ + decimal(color) + "m======\x1b[0m"@
}

/// Segment `index` of the ring on animation frame `frame`.
pub open spec fn arc(index: nat, frame: nat) -> Seq<char> {
    segment(arc_colors()[((index + frame) % 11) as int])
}

/// Appends segment `index` of the ring on frame `frame`.
fn arc_segment(out: &mut String, index: usize, frame: usize)
    requires
        index <= 10,
        frame < 10,
    ensures
        final(out)@ == old(out)@ + arc(index as nat, frame as nat),
{
    let colors: Vec<u64> = vec![81, 75, 69, 99, 238, 211, 215, 179, 150, 119, 114];
    assert(colors@ =~= arc_colors().map_values(|c: nat| c as u64));
    let color = colors[(index + frame) % 11];
    push_str(out, "\x1b[38;5;");
    push_decimal(out, color);
    push_str(out, "m======\x1b[0m");
    assert(final(out)@ =~= old(out)@ + arc(index as nat, frame as nat));
}

/// The twinkle beside the logo on frame `frame`.
pub open spec fn twinkle(frame: nat) -> Seq<char> {
    if frame % 2 == 0 { "*"@ } else { "+"@ }
}

/// The logo and the ring around it on ring frame `frame`, with `dust`
/// drifting beside it.
#[verifier::opaque]
pub open spec fn logo(frame: nat, dust: Seq<char>) -> Seq<Seq<char>> {
    seq![
        "                 "@ + arc(0, frame) + "   "@ + arc(1, frame) + "   "@ + arc(2, frame),
        "           "@ + arc(7, frame) + "                         "@ + arc(3, frame),
        "       "@ + arc(6, frame) + "        .-\"\"\"\"\"\"\"-.          \x1b[38;5;238m+------+\x1b[0m"@,
        "                .'  /\\   /\\  '.        \x1b[38;5;238m| \x1b[1;38;5;255m>_\x1b[0;38;5;238m   |\x1b[0m"@,
        "    "@ + arc(5, frame) + "         /   ( o   o )   \\       \x1b[38;5;238m+------+\x1b[0m"@,
        "              ;       \\_/       ;"@,
        "              |   .-       -.   |"@,
        "              |  /  .-----.  \\  |        /|"@,
        "              ;  \\_(_____)_/  ;       / |"@,
        "       "@ + arc(4, frame) + "      \\      ___      /      /  |     \x1b[38;5;244m"@ + dust + "\x1b[0m"@,
        "                '._         _.'      /  /"@,
        "                   '-.___.-'       _/__/"@,
        "                   _/ / \\ \\_      /___/   \x1b[38;5;255m"@ + twinkle(frame) + "\x1b[0m"@,
        "             "@ + arc(8, frame) + "             "@ + arc(9, frame) + "    "@ + arc(10, frame),
        ""@,
        "\x1b[1;38;5;255m ____              _   ____                            \x1b[0m"@,
        "\x1b[1;38;5;255m|  _ \\ _   _ ___ | |_| __ ) _   _ _ __  _ __  _   _   \x1b[0m"@,
        "\x1b[1;38;5;255m| | | | | | / __|| __|  _ \\| | | | '_ \\| '_ \\| | | |  \x1b[0m"@,
        "\x1b[1;38;5;255m| |_| | |_| \\__ \\| |_| |_) | |_| | | | | | | | |_| |  \x1b[0m"@,
        "\x1b[1;38;5;255m|____/ \\__,_|___/ \\__|____/ \\__,_|_| |_|_| |_|\\__, |  \x1b[0m"@,
        "\x1b[1;38;5;255m                                              |___/   \x1b[0m"@
    ]
}

/// The lines of the logo on ring frame `frame`.
fn logo_art(frame: usize, dust: &str) -> (v: Vec<String>)
    requires
        frame < 10,
    ensures
        views(v@) == logo(frame as nat, dust@),
{
    let mut v: Vec<String> = Vec::new();

    let mut l = String::from_str("                 ");
    arc_segment(&mut l, 0, frame);
    push_str(&mut l, "   ");
    arc_segment(&mut l, 1, frame);
    push_str(&mut l, "   ");
    arc_segment(&mut l, 2, frame);
    v.push(l);

    let mut l = String::from_str("           ");
    arc_segment(&mut l, 7, frame);
    push_str(&mut l, "                         ");
    arc_segment(&mut l, 3, frame);
    v.push(l);

    let mut l = String::from_str("       ");
    arc_segment(&mut l, 6, frame);
    push_str(&mut l, "        .-\"\"\"\"\"\"\"-.          \x1b[38;5;238m+------+\x1b[0m");
    v.push(l);

    v.push(String::from_str("                .'  /\\   /\\  '.        \x1b[38;5;238m| \x1b[1;38;5;255m>_\x1b[0;38;5;238m   |\x1b[0m"));

    let mut l = String::from_str("    ");
    arc_segment(&mut l, 5, frame);
    push_str(&mut l, "         /   ( o   o )   \\       \x1b[38;5;238m+------+\x1b[0m");
    v.push(l);

    v.push(String::from_str("              ;       \\_/       ;"));
    v.push(String::from_str("              |   .-       -.   |"));
    v.push(String::from_str("              |  /  .-----.  \\  |        /|"));
    v.push(String::from_str("              ;  \\_(_____)_/  ;       / |"));

    let mut l = String::from_str("       ");
    arc_segment(&mut l, 4, frame);
    push_str(&mut l, "      \\      ___      /      /  |     \x1b[38;5;244m");
    push_str(&mut l, dust);
    push_str(&mut l, "\x1b[0m");
    v.push(l);

    v.push(String::from_str("                '._         _.'      /  /"));
    v.push(String::from_str("                   '-.___.-'       _/__/"));

    let mut l = String::from_str("                   _/ / \\ \\_      /___/   \x1b[38;5;255m");
    if frame % 2 == 0 {
        push_str(&mut l, "*");
    } else {
        push_str(&mut l, "+");
    }
    push_str(&mut l, "\x1b[0m");
    v.push(l);

    let mut l = String::from_str("             ");
    arc_segment(&mut l, 8, frame);
    push_str(&mut l, "             ");
    arc_segment(&mut l, 9, frame);
    push_str(&mut l, "    ");
    arc_segment(&mut l, 10, frame);
    v.push(l);

    v.push(String::from_str(""));
    v.push(String::from_str("\x1b[1;38;5;255m ____              _   ____                            \x1b[0m"));
    v.push(String::from_str("\x1b[1;38;5;255m|  _ \\ _   _ ___ | |_| __ ) _   _ _ __  _ __  _   _   \x1b[0m"));
    v.push(String::from_str("\x1b[1;38;5;255m| | | | | | / __|| __|  _ \\| | | | '_ \\| '_ \\| | | |  \x1b[0m"));
    v.push(String::from_str("\x1b[1;38;5;255m| |_| | |_| \\__ \\| |_| |_) | |_| | | | | | | | |_| |  \x1b[0m"));
    v.push(String::from_str("\x1b[1;38;5;255m|____/ \\__,_|___/ \\__|____/ \\__,_|_| |_|_| |_|\\__, |  \x1b[0m"));
    v.push(String::from_str("\x1b[1;38;5;255m                                              |___/   \x1b[0m"));

    proof {
        reveal(logo);
    }
    assert(views(v@) =~= logo(frame as nat, dust@));
    v
}

/// `line` after writing `text` at column `col`: the text goes in at `col`,
/// and as many characters after it as show of `text` turn to spaces.
pub open spec fn written(line: Seq<char>, col: nat, text: Seq<char>) -> Seq<char> {
    if col >= line.len() {
        line
    } else {
        let end = if col + visible(text) < line.len() { col + visible(text) } else { line.len() };
        line.take(col as int) + text + spaces((end - col) as nat) + line.skip(end as int)
    }
}

/// The column at which `text` starts when centred on `center`.
pub open spec fn centered_start(center: nat, text: Seq<char>) -> nat {
    if center > visible(text) / 2 { (center - visible(text) / 2) as nat } else { 0 }
}

/// Writes `text` into row `row` at column `col`; nothing happens where the
/// row or the column lies outside `lines`.
fn write_at(lines: &mut Vec<String>, row: usize, col: usize, text: &str)
    requires
        row < old(lines)@.len() ==> ascii(old(lines)@[row as int]@),
    ensures
        views(final(lines)@) == if row < old(lines)@.len() {
            views(old(lines)@).update(row as int, written(old(lines)@[row as int]@, col as nat, text@))
        } else {
            views(old(lines)@)
        },
        final(lines)@.len() == old(lines)@.len(),
{
    if row >= lines.len() {
        return;
    }
    let line = chars_of(lines[row].as_str());
    if col >= line.len() {
        proof {
            assert(views(lines@) =~= views(old(lines)@).update(row as int, written(old(lines)@[row as int]@, col as nat, text@)));
        }
        return;
    }
    let visible = visible_width(text);
    let end: usize = if visible < line.len() - col { col + visible } else { line.len() };
    let mut out = String::new();
    for i in 0..col
        invariant
            col < line@.len(),
            out@ == line@.take(i as int),
    {
        push_char(&mut out, line[i]);
        assert(line@.take(i + 1) =~= line@.take(i as int).push(line@[i as int]));
    }
    push_str(&mut out, text);
    let ghost head = out@;
    for i in col..end
        invariant
            head == line@.take(col as int) + text@,
            out@ == head + spaces((i - col) as nat),
    {
        push_char(&mut out, ' ');
        assert(spaces((i + 1 - col) as nat) =~= spaces((i - col) as nat).push(' '));
    }
    let ghost mid = out@;
    for i in end..line.len()
        invariant
            end <= line@.len(),
            mid == line@.take(col as int) + text@ + spaces((end - col) as nat),
            out@ == mid + line@.subrange(end as int, i as int),
    {
        push_char(&mut out, line[i]);
        assert(line@.subrange(end as int, i + 1) =~= line@.subrange(end as int, i as int).push(line@[i as int]));
    }
    assert(line@.subrange(end as int, line@.len() as int) =~= line@.skip(end as int));
    lines[row] = out;
    proof {
        assert(views(lines@) =~= views(old(lines)@).update(row as int, written(old(lines)@[row as int]@, col as nat, text@)));
    }
}

/// Writes `text` into row `row`, centred on column `center_x`.
fn write_centered(lines: &mut Vec<String>, row: usize, center_x: usize, text: &str)
    requires
        row < old(lines)@.len() ==> ascii(old(lines)@[row as int]@),
    ensures
        views(final(lines)@) == if row < old(lines)@.len() {
            views(old(lines)@).update(row as int, written(old(lines)@[row as int]@, centered_start(center_x as nat, text@), text@))
        } else {
            views(old(lines)@)
        },
        final(lines)@.len() == old(lines)@.len(),
{
    if row >= lines.len() {
        return;
    }
    let visible = visible_width(text);
    let start: usize = if center_x > visible / 2 { center_x - visible / 2 } else { 0 };
    write_at(lines, row, start, text);
}

/// `text` centred on column `center` of a blank line `width` wide.
pub open spec fn placed(width: nat, center: nat, text: Seq<char>) -> Seq<char> {
    written(spaces(width), centered_start(center, text), text)
}

/// The spinner's animation frames.
pub open spec fn spinner_frames() -> Seq<Seq<char>> {
    seq!["-"@, "\\"@, "|"@, "/"@, "-"@, "\\"@]
}

/// The dust's animation frames.
pub open spec fn dust_frames() -> Seq<Seq<char>> {
    seq![".  "@, " . "@, "  ."@, " . "@]
}

/// The line that names the path being scanned.
pub open spec fn scanning_line(frame: nat, path: Seq<char>) -> Seq<char> {
    "\x1b[38;5;244m"@ + spinner_frames()[(frame % 6) as int] + " scanning "@ + shortened(path, 54) + "\x1b[0m"@
}

/// The line that tells how long the scan has run, `seconds` being the
/// elapsed time in seconds with one decimal.
pub open spec fn elapsed_line(seconds: Seq<char>) -> Seq<char> {
    "\x1b[38;5;240mcollecting dust for "@ + seconds + "s\x1b[0m"@
}

/// The frame's width: at least 80 columns.
pub open spec fn splash_width(width: u16) -> nat {
    if width < 80 { 80 } else { width as nat }
}

/// The frame's height: at least 24 rows.
pub open spec fn splash_height(height: u16) -> nat {
    if height < 24 { 24 } else { height as nat }
}

/// The first row of the logo.
pub open spec fn splash_top(height: u16) -> nat {
    (if splash_height(height) > 22 { splash_height(height) - 22 } else { 0 }) as nat / 2
}

/// Row `r` of the splash screen on animation frame `frame`.
pub open spec fn splash_row(width: u16, height: u16, frame: nat, path: Seq<char>, seconds: Seq<char>, r: int) -> Seq<char> {
    let w = splash_width(width);
    let top = splash_top(height);
    let center = w / 2;
    if top <= r < top + 21 {
        placed(w, center, logo(frame % 10, dust_frames()[(frame % 4) as int])[r - top])
    } else if r == top + 22 {
        placed(w, center, scanning_line(frame, path))
    } else if r == top + 23 {
        placed(w, center, elapsed_line(seconds))
    } else {
        spaces(w)
    }
}

/// The rows of the splash screen.
pub open spec fn splash_rows(width: u16, height: u16, frame: nat, path: Seq<char>, seconds: Seq<char>) -> Seq<Seq<char>> {
    Seq::new(splash_height(height), |r: int| splash_row(width, height, frame, path, seconds, r))
}

/// A line of `n` spaces.
fn blank_line(n: usize) -> (s: String)
    ensures
        s@ == spaces(n as nat),
{
    let mut s = String::new();
    for i in 0..n
        invariant
            s@ == spaces(i as nat),
    {
        push_char(&mut s, ' ');
        assert(spaces((i + 1) as nat) =~= spaces(i as nat).push(' '));
    }
    s
}

proof fn lemma_spaces_ascii(n: nat)
    ensures
        ascii(spaces(n)),
{
    assert forall|i: int| 0 <= i < spaces(n).len() implies (spaces(n)[i] as u32) < 128 by {
        assert(spaces(n)[i] == ' ');
    }
}

/// The splash screen shown while a scan runs: the animated logo, the path
/// being scanned and the time spent so far (`seconds`, in seconds with one
/// decimal), on a screen of at least 80 by 24, rows joined by CR LF.
pub fn render_scan_frame(width: u16, height: u16, frame: usize, path: &str, seconds: &str) -> (r: String)
    ensures
        r@ == join(splash_rows(width, height, frame as nat, path@, seconds@), "\r\n"@),
{
    let w: usize = if width < 80 { 80 } else { width as usize };
    let h: usize = if height < 24 { 24 } else { height as usize };
    let center_x = w / 2;
    let top: usize = (if h > 22 { h - 22 } else { 0 }) / 2;
    let ring_frame = frame % 10;
    let dust_all: Vec<&str> = vec![".  ", " . ", "  .", " . "];
    let spin_all: Vec<&str> = vec!["-", "\\", "|", "/", "-", "\\"];
    let dust = dust_all[frame % 4];
    let spinner = spin_all[frame % 6];
    proof {
        assert(dust@ == dust_frames()[(frame % 4) as int]);
        assert(spinner@ == spinner_frames()[(frame % 6) as int]);
        lemma_spaces_ascii(w as nat);
    }
    let ghost rows = splash_rows(width, height, frame as nat, path@, seconds@);

    let mut lines: Vec<String> = Vec::new();
    for i in 0..h
        invariant
            lines@.len() == i,
            forall|k: int| 0 <= k < i ==> (#[trigger] lines@[k])@ == spaces(w as nat),
    {
        lines.push(blank_line(w));
    }

    let art = logo_art(ring_frame, dust);
    proof {
        reveal(logo);
        assert(views(art@).len() == 21);
    }
    for idx in 0..art.len()
        invariant
            art.len() == 21,
            views(art@) == logo(ring_frame as nat, dust@),
            lines@.len() == h,
            h == splash_height(height),
            w == splash_width(width),
            top == splash_top(height),
            center_x == w / 2,
            ring_frame == frame as nat % 10,
            dust@ == dust_frames()[(frame % 4) as int],
            ascii(spaces(w as nat)),
            forall|k: int| 0 <= k < h ==> (#[trigger] lines@[k])@ == if top <= k < top + idx {
                placed(w as nat, center_x as nat, views(art@)[k - top])
            } else {
                spaces(w as nat)
            },
    {
        assert(art@[idx as int]@ == views(art@)[idx as int]);
        let ghost before = lines@;
        write_centered(&mut lines, top + idx, center_x, art[idx].as_str());
        proof {
            assert forall|k: int| 0 <= k < h implies (#[trigger] lines@[k])@ == if top <= k < top + idx + 1 {
                placed(w as nat, center_x as nat, views(art@)[k - top])
            } else {
                spaces(w as nat)
            } by {
                assert(views(lines@)[k] == lines@[k]@);
                assert(views(before)[k] == before[k]@);
            }
        }
    }

    let short = truncate(path, 54);
    let mut scanning = String::from_str("\x1b[38;5;244m");
    push_str(&mut scanning, spinner);
    push_str(&mut scanning, " scanning ");
    push_str(&mut scanning, short.as_str());
    push_str(&mut scanning, "\x1b[0m");
    assert(scanning@ =~= scanning_line(frame as nat, path@));
    let ghost old_lines = lines@;
    write_centered(&mut lines, top + 22, center_x, scanning.as_str());

    let mut elapsed = String::from_str("\x1b[38;5;240mcollecting dust for ");
    push_str(&mut elapsed, seconds);
    push_str(&mut elapsed, "s\x1b[0m");
    assert(elapsed@ =~= elapsed_line(seconds@));
    proof {
        if top + 23 < h {
            assert(views(lines@)[top + 23] == lines@[top + 23]@);
            assert(views(old_lines)[top + 23] == old_lines[top + 23]@);
        }
    }
    write_centered(&mut lines, top + 23, center_x, elapsed.as_str());

    proof {
        assert forall|k: int| 0 <= k < h implies views(lines@)[k] == rows[k] by {
            assert(views(lines@)[k] == lines@[k]@);
            assert(views(old_lines)[k] == old_lines[k]@);
        }
        assert(views(lines@) =~= rows);
    }
    join_strings(&lines, "\r\n")
}

/// What polling the scan gave.
#[derive(Debug, Clone, Copy, PartialEq, Eq, Structural)]
pub enum Poll {
    /// The scan's result has arrived.
    Ready,
    /// The scan is still running.
    Waiting,
    /// The scan's worker is gone without a result.
    Lost,
}

/// What the splash screen does next.
#[derive(Debug, Clone, Copy, PartialEq, Eq, Structural)]
pub enum WaitStep {
    /// Pause this many nanoseconds, then hand over the scan's result.
    Finish { pause_nanos: u128 },
    /// Give up: the scan's worker is gone.
    Fail,
    /// Pause this many nanoseconds, then draw the next frame.
    Continue { pause_nanos: u128 },
}

/// The splash screen's progress: the animation frame to draw next, and
/// whether no frame has been followed by a poll yet.
#[derive(Debug, Clone, Copy, PartialEq, Eq, Structural)]
pub struct SplashState {
    pub frame: usize,
    pub first_frame: bool,
}

/// How long the splash screen stays up at least once a frame has been
/// polled, in nanoseconds.
pub const MIN_SHOW_NANOS: u128 = 450_000_000;

/// The pause after a scan that finished before the first poll.
pub const FIRST_FRAME_PAUSE_NANOS: u128 = 220_000_000;

/// The pause between two frames.
pub const FRAME_PAUSE_NANOS: u128 = 110_000_000;

/// The step after a poll that gave `poll`, `elapsed` nanoseconds after the
/// splash screen appeared.
pub open spec fn wait_decision(first_frame: bool, poll: Poll, elapsed: u128) -> WaitStep {
    match poll {
        Poll::Ready => if first_frame {
            WaitStep::Finish { pause_nanos: FIRST_FRAME_PAUSE_NANOS }
        } else if elapsed < MIN_SHOW_NANOS {
            WaitStep::Finish { pause_nanos: (MIN_SHOW_NANOS - elapsed) as u128 }
        } else {
            WaitStep::Finish { pause_nanos: 0 }
        },
        Poll::Lost => WaitStep::Fail,
        Poll::Waiting => WaitStep::Continue { pause_nanos: FRAME_PAUSE_NANOS },
    }
}

impl SplashState {
    /// The state before the first frame.
    pub fn new() -> (s: Self)
        ensures
            s.frame == 0,
            s.first_frame,
    {
        SplashState { frame: 0, first_frame: true }
    }

    /// Moves to the next animation frame once one is drawn.
    pub fn advance(&mut self)
        ensures
            final(self).frame == (if old(self).frame == usize::MAX { 0 } else { old(self).frame + 1 }),
            final(self).first_frame == old(self).first_frame,
    {
        self.frame = if self.frame == usize::MAX { 0 } else { self.frame + 1 };
    }

    /// Decides what follows a poll of the scan that gave `poll`, `elapsed`
    /// nanoseconds after the splash screen appeared: a result is handed over
    /// after a short pause, so that the splash screen is seen; a lost worker
    /// is an error; else the next frame follows.
    pub fn decide(&mut self, poll: Poll, elapsed: u128) -> (step: WaitStep)
        ensures
            step == wait_decision(old(self).first_frame, poll, elapsed),
            final(self).frame == old(self).frame,
            final(self).first_frame == (old(self).first_frame && poll != Poll::Waiting),
    {
        match poll {
            Poll::Ready => {
                if self.first_frame {
                    WaitStep::Finish { pause_nanos: FIRST_FRAME_PAUSE_NANOS }
                } else if elapsed < MIN_SHOW_NANOS {
                    WaitStep::Finish { pause_nanos: MIN_SHOW_NANOS - elapsed }
                } else {
                    WaitStep::Finish { pause_nanos: 0 }
                }
            },
            Poll::Lost => WaitStep::Fail,
            Poll::Waiting => {
                self.first_frame = false;
                WaitStep::Continue { pause_nanos: FRAME_PAUSE_NANOS }
            },
        }
    }
}

/// The error that ends a scan whose worker is gone.
pub fn worker_lost_message() -> (s: &'static str)
    ensures
        s@ == "scanner worker disconnected"@,
{
    "scanner worker disconnected"
}

/// A scan that ends after the first frame keeps the splash screen up for
/// at least 450 ms in all; one that ends before it, for 220 ms more.
pub proof fn lemma_splash_shown_long_enough(first_frame: bool, elapsed: u128)
    ensures
        wait_decision(first_frame, Poll::Ready, elapsed) matches WaitStep::Finish { pause_nanos } && (if first_frame {
            pause_nanos == FIRST_FRAME_PAUSE_NANOS
        } else {
            elapsed + pause_nanos >= MIN_SHOW_NANOS
        }),
{
}

/// A cut path never shows more than its room, and at least the ellipsis.
pub proof fn lemma_shortened_fits(value: Seq<char>, width: nat)
    ensures
        shortened(value, width).len() <= if width >= 1 { width } else { 1 },
        shortened(value, width).len() == value.len() || shortened(value, width).last() == '…',
{
    if value.len() > width {
        let k: int = if width >= 1 { width - 1 } else { 0 };
        assert(shortened(value, width) == value.take(k) + "…"@);
        assert("…"@.len() == 1) by {
            reveal_strlit("…");
        }
        assert("…"@[0] == '…') by {
            reveal_strlit("…");
        }
    }
}

} // verus!

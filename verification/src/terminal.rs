use vstd::prelude::*;

use crate::text::{chars_of, char_at, push_str, parse_code, parsed_u16, string_from_chars};

verus! {

/// A key press, as read from the terminal.
#[derive(Debug, Clone, Copy, PartialEq, Eq, Structural)]
pub enum Key {
    Char(char),
    Up,
    Down,
    Left,
    Right,
    Enter,
    Backspace,
    Tab,
    Esc,
    Unknown,
}

/// The terminal's state before the explorer took it over: the mode that
/// `stty -g` reported, if it could be read.
pub struct Terminal {
    pub original_mode: Option<String>,
}

/// What the first byte of a key press gives: a key, or the start of an
/// escape sequence whose next bytes decide the key.
#[derive(Debug, Clone, Copy, PartialEq, Eq, Structural)]
pub enum KeyStart {
    Done(Key),
    Escape,
}

/// The key that byte `b` starts.
pub open spec fn key_start(b: u8) -> KeyStart {
    if b == 13 || b == 10 {
        KeyStart::Done(Key::Enter)
    } else if b == 9 {
        KeyStart::Done(Key::Tab)
    } else if b == 0x7f || b == 8 {
        KeyStart::Done(Key::Backspace)
    } else if b == 0x1b {
        KeyStart::Escape
    } else if 0x20 <= b < 0x7f {
        KeyStart::Done(Key::Char(b as char))
    } else {
        KeyStart::Done(Key::Unknown)
    }
}

/// Decodes the first byte of a key press: line ends are Enter, tab is Tab,
/// DEL and BS are Backspace, ESC starts a sequence, printable ASCII is a
/// character, and anything else is unknown.
pub fn key_from_byte(b: u8) -> (k: KeyStart)
    ensures
        k == key_start(b),
{
    if b == 13 || b == 10 {
        KeyStart::Done(Key::Enter)
    } else if b == 9 {
        KeyStart::Done(Key::Tab)
    } else if b == 0x7f || b == 8 {
        KeyStart::Done(Key::Backspace)
    } else if b == 0x1b {
        KeyStart::Escape
    } else if 0x20 <= b && b < 0x7f {
        KeyStart::Done(Key::Char(b as char))
    } else {
        KeyStart::Done(Key::Unknown)
    }
}

/// The key of an escape sequence, of which `count` bytes after ESC were
/// read into `first` and `second` (zero where not read).
pub open spec fn escape_key(count: usize, first: u8, second: u8) -> Key {
    if count == 0 {
        Key::Esc
    } else if count == 1 && first == 0x5b {
        Key::Esc
    } else if first == 0x5b {
        if second == 0x41 {
            Key::Up
        } else if second == 0x42 {
            Key::Down
        } else if second == 0x43 {
            Key::Right
        } else if second == 0x44 {
            Key::Left
        } else {
            Key::Unknown
        }
    } else {
        Key::Esc
    }
}

/// Decodes the bytes that follow ESC: `[A` to `[D` are the arrows, a lone
/// ESC (or ESC `[` alone) is Esc.
pub fn key_from_escape(count: usize, first: u8, second: u8) -> (k: Key)
    ensures
        k == escape_key(count, first, second),
{
    if count == 0 {
        Key::Esc
    } else if count == 1 && first == 0x5b {
        Key::Esc
    } else if first == 0x5b {
        if second == 0x41 {
            Key::Up
        } else if second == 0x42 {
            Key::Down
        } else if second == 0x43 {
            Key::Right
        } else if second == 0x44 {
            Key::Left
        } else {
            Key::Unknown
        }
    } else {
        Key::Esc
    }
}

/// Whether `c` has the Unicode `White_Space` property.
pub open spec fn is_space(c: char) -> bool {
    let u = c as u32;
    (9 <= u <= 13) || u == 32 || u == 0x85 || u == 0xa0 || u == 0x1680 || (0x2000 <= u <= 0x200a) || u == 0x2028
        || u == 0x2029 || u == 0x202f || u == 0x205f || u == 0x3000
}

fn space(c: char) -> (r: bool)
    ensures
        r == is_space(c),
{
    let u = c as u32;
    (9 <= u && u <= 13) || u == 32 || u == 0x85 || u == 0xa0 || u == 0x1680 || (0x2000 <= u && u <= 0x200a)
        || u == 0x2028 || u == 0x2029 || u == 0x202f || u == 0x205f || u == 0x3000
}

/// The words of `s`: its maximal runs of characters that are not white
/// space, in order, as `str::split_whitespace` gives them.
pub open spec fn words(s: Seq<char>) -> Seq<Seq<char>>
    decreases s.len(),
{
    if s.len() == 0 {
        Seq::empty()
    } else {
        let w = words(s.drop_last());
        let c = s.last();
        if is_space(c) {
            w
        } else if s.len() >= 2 && !is_space(s[s.len() - 2]) && w.len() > 0 {
            w.update(w.len() - 1, w.last().push(c))
        } else {
            w.push(seq![c])
        }
    }
}

/// Splits `text` into its words.
fn split_words(text: &str) -> (ws: Vec<Vec<char>>)
    ensures
        ws@.len() == words(text@).len(),
        forall|i: int| 0 <= i < ws@.len() ==> (#[trigger] ws@[i])@ == words(text@)[i],
{
    let chars = chars_of(text);
    let mut ws: Vec<Vec<char>> = Vec::new();
    let mut current: Vec<char> = Vec::new();
    let mut in_word = false;
    for i in 0..chars.len()
        invariant
            chars@ == text@,
            in_word == (i > 0 && !is_space(chars@[i - 1])),
            in_word ==> words(chars@.take(i as int)).len() > 0,
            in_word ==> current@ == words(chars@.take(i as int)).last(),
            in_word ==> ws@.len() + 1 == words(chars@.take(i as int)).len(),
            !in_word ==> ws@.len() == words(chars@.take(i as int)).len(),
            forall|k: int| 0 <= k < ws@.len() ==> (#[trigger] ws@[k])@ == words(chars@.take(i as int))[k],
    {
        let ghost prev = words(chars@.take(i as int));
        proof {
            assert(chars@.take(i + 1).drop_last() =~= chars@.take(i as int));
            if i > 0 {
                assert(chars@.take(i + 1)[i - 1] == chars@[i - 1]);
            }
        }
        let c = char_at(&chars, i);
        if space(c) {
            if in_word {
                ws.push(current);
                current = Vec::new();
                proof {
                    assert forall|k: int| 0 <= k < ws@.len() implies (#[trigger] ws@[k])@ == words(chars@.take(i + 1))[k] by {
                    }
                }
            }
            in_word = false;
        } else {
            if in_word {
                current.push(c);
            } else {
                current = Vec::new();
                current.push(c);
                assert(current@ =~= seq![c]);
            }
            in_word = true;
        }
    }
    if in_word {
        ws.push(current);
    }
    proof {
        assert(chars@.take(chars@.len() as int) =~= chars@);
    }
    ws
}

/// The screen size (columns, rows) that `stty size` reported in `text`
/// ("rows columns"), at least 60 columns by 20 rows; none where its first
/// two words are not both numbers that fit a `u16`.
pub open spec fn stty_size(text: Seq<char>) -> Option<(u16, u16)> {
    let ws = words(text);
    if ws.len() >= 2 && parsed_u16(ws[0]).is_some() && parsed_u16(ws[1]).is_some() {
        let rows = parsed_u16(ws[0]).unwrap();
        let cols = parsed_u16(ws[1]).unwrap();
        Some((if cols < 60 { 60 } else { cols }, if rows < 20 { 20 } else { rows }))
    } else {
        None
    }
}

/// Reads the output of `stty size`.
pub fn size_from_stty(text: &str) -> (r: Option<(u16, u16)>)
    ensures
        r == stty_size(text@),
{
    let ws = split_words(text);
    if ws.len() < 2 {
        return None;
    }
    let rows = parse_code(&ws[0]);
    let cols = parse_code(&ws[1]);
    match (rows, cols) {
        (Some(rows), Some(cols)) => {
            Some((if cols < 60 { 60 } else { cols }, if rows < 20 { 20 } else { rows }))
        },
        _ => None,
    }
}

/// The screen size (columns, rows) from the values of `COLUMNS` and
/// `LINES`: 100 by 30 where one is missing or not a number, and at least
/// 60 by 20.
pub open spec fn env_size(columns: Option<Seq<char>>, lines: Option<Seq<char>>) -> (u16, u16) {
    let cols: u16 = match columns {
        Some(c) => match parsed_u16(c) {
            Some(v) => v,
            None => 100,
        },
        None => 100,
    };
    let rows: u16 = match lines {
        Some(l) => match parsed_u16(l) {
            Some(v) => v,
            None => 30,
        },
        None => 30,
    };
    (if cols < 60 { 60 } else { cols }, if rows < 20 { 20 } else { rows })
}

/// The view of an optional string.
pub open spec fn opt_view(s: Option<String>) -> Option<Seq<char>> {
    match s {
        Some(v) => Some(v@),
        None => None,
    }
}

/// The screen size from the environment's `COLUMNS` and `LINES`.
pub fn size_from_env(columns: Option<String>, lines: Option<String>) -> (r: (u16, u16))
    ensures
        r == env_size(opt_view(columns), opt_view(lines)),
{
    let cols: u16 = match columns {
        Some(c) => match parse_code(&chars_of(c.as_str())) {
            Some(v) => v,
            None => 100,
        },
        None => 100,
    };
    let rows: u16 = match lines {
        Some(l) => match parse_code(&chars_of(l.as_str())) {
            Some(v) => v,
            None => 30,
        },
        None => 30,
    };
    (if cols < 60 { 60 } else { cols }, if rows < 20 { 20 } else { rows })
}

/// `s` without its leading white space.
pub open spec fn trim_start(s: Seq<char>) -> Seq<char>
    decreases s.len(),
{
    if s.len() > 0 && is_space(s[0]) {
        trim_start(s.drop_first())
    } else {
        s
    }
}

/// `s` without its trailing white space.
pub open spec fn trim_end(s: Seq<char>) -> Seq<char>
    decreases s.len(),
{
    if s.len() > 0 && is_space(s.last()) {
        trim_end(s.drop_last())
    } else {
        s
    }
}

/// `s` without white space at either end.
pub open spec fn trimmed(s: Seq<char>) -> Seq<char> {
    trim_start(trim_end(s))
}

/// `s` without white space at either end, as `str::trim` gives it.
pub fn trim(s: &str) -> (r: String)
    ensures
        r@ == trimmed(s@),
{
    let chars = chars_of(s);
    let mut end = chars.len();
    assert(chars@.take(end as int) =~= chars@);
    while end > 0 && space(char_at(&chars, end - 1))
        invariant
            end <= chars@.len(),
            trim_end(chars@.take(end as int)) == trim_end(chars@),
        decreases end,
    {
        proof {
            assert(chars@.take(end as int).drop_last() =~= chars@.take(end - 1));
        }
        end = end - 1;
    }
    assert(trim_end(chars@.take(end as int)) == chars@.take(end as int));
    let mut start: usize = 0;
    assert(chars@.subrange(0, end as int) =~= chars@.take(end as int));
    while start < end && space(char_at(&chars, start))
        invariant
            start <= end <= chars@.len(),
            trim_end(chars@) == chars@.take(end as int),
            trim_start(chars@.subrange(start as int, end as int)) == trim_start(chars@.take(end as int)),
        decreases end - start,
    {
        proof {
            assert(chars@.subrange(start as int, end as int).drop_first() =~= chars@.subrange(start + 1, end as int));
        }
        start = start + 1;
    }
    let mut kept: Vec<char> = Vec::new();
    for k in start..end
        invariant
            end <= chars@.len(),
            kept@ == chars@.subrange(start as int, k as int),
    {
        kept.push(char_at(&chars, k));
        assert(kept@ =~= chars@.subrange(start as int, k + 1));
    }
    assert(trim_start(chars@.subrange(start as int, end as int)) == chars@.subrange(start as int, end as int));
    string_from_chars(&kept)
}

impl Terminal {
    /// The terminal as it was, given whether `stty -g` succeeded and what
    /// it printed: its mode, trimmed, if it succeeded.
    pub fn from_saved_mode(success: bool, output: &str) -> (t: Terminal)
        ensures
            success ==> (t.original_mode matches Some(m) && m@ == trimmed(output@)),
            !success ==> t.original_mode is None,
    {
        if success {
            Terminal { original_mode: Some(trim(output)) }
        } else {
            Terminal { original_mode: None }
        }
    }

    /// The argument that hands `stty` back the terminal's first mode, or
    /// `sane` where it was not read.
    pub fn restore_argument(&self) -> (arg: String)
        ensures
            arg@ == match self.original_mode {
                Some(m) => m@,
                None => "sane"@,
            },
    {
        match &self.original_mode {
            Some(m) => m.clone(),
            None => String::from_str("sane"),
        }
    }
}

/// What takes over the screen: the alternate screen, a hidden cursor, a
/// cleared screen, the cursor at the top left.
pub fn enter_sequence() -> (s: &'static str)
    ensures
        s@ == "\x1b[?1049h\x1b[?25l\x1b[2J\x1b[H"@,
{
    "\x1b[?1049h\x1b[?25l\x1b[2J\x1b[H"
}

/// What gives the screen back: the cursor shown, the main screen.
pub fn leave_sequence() -> (s: &'static str)
    ensures
        s@ == "\x1b[?25h\x1b[?1049l"@,
{
    "\x1b[?25h\x1b[?1049l"
}

/// What draws `frame`: the cursor to the top left, the frame, and the rest
/// of the screen cleared.
pub fn frame_output(frame: &str) -> (s: String)
    ensures
        s@ == "\x1b[H"@ + frame@ + "\x1b[J"@,
{
    let mut s = String::from_str("\x1b[H");
    push_str(&mut s, frame);
    push_str(&mut s, "\x1b[J");
    s
}

/// Whatever the terminal reports, the screen is taken to be at least 60
/// columns by 20 rows.
pub proof fn lemma_size_at_least_minimum(text: Seq<char>, columns: Option<Seq<char>>, lines: Option<Seq<char>>)
    ensures
        stty_size(text) matches Some((c, r)) ==> c >= 60 && r >= 20,
        env_size(columns, lines).0 >= 60,
        env_size(columns, lines).1 >= 20,
{
}

} // verus!

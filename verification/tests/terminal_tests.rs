use dustbunny::terminal::{
    enter_sequence, frame_output, key_from_byte, key_from_escape, leave_sequence, size_from_env, size_from_stty, trim,
    Key, KeyStart, Terminal,
};

#[test]
fn first_byte_decodes_to_a_key() {
    assert_eq!(key_from_byte(b'\r'), KeyStart::Done(Key::Enter));
    assert_eq!(key_from_byte(b'\n'), KeyStart::Done(Key::Enter));
    assert_eq!(key_from_byte(b'\t'), KeyStart::Done(Key::Tab));
    assert_eq!(key_from_byte(0x7f), KeyStart::Done(Key::Backspace));
    assert_eq!(key_from_byte(0x08), KeyStart::Done(Key::Backspace));
    assert_eq!(key_from_byte(0x1b), KeyStart::Escape);
    assert_eq!(key_from_byte(b'q'), KeyStart::Done(Key::Char('q')));
    assert_eq!(key_from_byte(b' '), KeyStart::Done(Key::Char(' ')));
    assert_eq!(key_from_byte(0x01), KeyStart::Done(Key::Unknown));
    assert_eq!(key_from_byte(0xc3), KeyStart::Done(Key::Unknown));
}

#[test]
fn escape_sequences_decode_to_arrows() {
    assert_eq!(key_from_escape(0, 0, 0), Key::Esc);
    assert_eq!(key_from_escape(1, b'[', 0), Key::Esc);
    assert_eq!(key_from_escape(2, b'[', b'A'), Key::Up);
    assert_eq!(key_from_escape(2, b'[', b'B'), Key::Down);
    assert_eq!(key_from_escape(2, b'[', b'C'), Key::Right);
    assert_eq!(key_from_escape(2, b'[', b'D'), Key::Left);
    assert_eq!(key_from_escape(2, b'[', b'Z'), Key::Unknown);
    assert_eq!(key_from_escape(2, b'O', b'A'), Key::Esc);
    assert_eq!(key_from_escape(1, b'x', 0), Key::Esc);
}

#[test]
fn stty_size_reads_rows_then_columns() {
    assert_eq!(size_from_stty("24 80\n"), Some((80, 24)));
    assert_eq!(size_from_stty("  50\t200 "), Some((200, 50)));
    assert_eq!(size_from_stty("10 40"), Some((60, 20)));
    assert_eq!(size_from_stty("+24 80"), Some((80, 24)));
    assert_eq!(size_from_stty("x 80"), None);
    assert_eq!(size_from_stty("24"), None);
    assert_eq!(size_from_stty(""), None);
    assert_eq!(size_from_stty("24 70000"), None);
}

#[test]
fn environment_size_falls_back_to_100_by_30() {
    assert_eq!(size_from_env(Some("120".to_string()), Some("40".to_string())), (120, 40));
    assert_eq!(size_from_env(None, None), (100, 30));
    assert_eq!(size_from_env(Some("abc".to_string()), Some("10".to_string())), (100, 20));
    assert_eq!(size_from_env(Some("-5".to_string()), None), (100, 30));
}

#[test]
fn trim_removes_white_space_at_both_ends() {
    assert_eq!(trim("  a b \n"), "a b");
    assert_eq!(trim("\u{3000}x\u{a0}"), "x");
    assert_eq!(trim("   "), "");
    assert_eq!(trim("plain"), "plain");
}

#[test]
fn terminal_restores_its_saved_mode() {
    let saved = Terminal::from_saved_mode(true, "500:5:bf:8a3b\n");
    assert_eq!(saved.original_mode.as_deref(), Some("500:5:bf:8a3b"));
    assert_eq!(saved.restore_argument(), "500:5:bf:8a3b");
    let unknown = Terminal::from_saved_mode(false, "ignored");
    assert!(unknown.original_mode.is_none());
    assert_eq!(unknown.restore_argument(), "sane");
}

#[test]
fn screen_control_sequences() {
    assert_eq!(enter_sequence(), "\x1b[?1049h\x1b[?25l\x1b[2J\x1b[H");
    assert_eq!(leave_sequence(), "\x1b[?25h\x1b[?1049l");
    assert_eq!(frame_output("frame"), "\x1b[Hframe\x1b[J");
}

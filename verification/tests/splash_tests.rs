use dustbunny::splash::{render_scan_frame, truncate, visible_width};

#[test]
fn visible_width_skips_escape_sequences() {
    assert_eq!(visible_width(""), 0);
    assert_eq!(visible_width("abc"), 3);
    assert_eq!(visible_width("\x1b[1;38;5;255mab\x1b[0m"), 2);
    assert_eq!(visible_width("a\x1b[0"), 1);
}

#[test]
fn splash_truncate_ends_with_an_ellipsis() {
    assert_eq!(truncate("abc", 4), "abc");
    assert_eq!(truncate("abcdef", 4), "abc\u{2026}");
    assert_eq!(truncate("abc", 0), "\u{2026}");
    assert_eq!(truncate("abc", 1), "\u{2026}");
}

#[test]
fn scan_frame_is_at_least_80_by_24() {
    let frame = render_scan_frame(20, 10, 0, "/tmp", "0.0");
    let rows: Vec<&str> = frame.split("\r\n").collect();
    assert_eq!(rows.len(), 24);
    assert_eq!(rows[0], " ".repeat(80));
    assert_eq!(rows[15], " ".repeat(80));
    assert!(rows[23].contains("- scanning /tmp"));
    assert!(!frame.contains("collecting dust"));
}

#[test]
fn scan_frame_shows_elapsed_time_when_tall_enough() {
    let frame = render_scan_frame(100, 30, 1, "/home", "1.5");
    let rows: Vec<&str> = frame.split("\r\n").collect();
    assert_eq!(rows.len(), 30);
    assert!(rows[26].contains("\\ scanning /home"));
    assert!(rows[27].contains("collecting dust for 1.5s"));
    assert!(rows[4].contains("======"));
    assert!(rows[4].contains("\x1b[38;5;75m"));
}

#[test]
fn scan_frame_centres_the_logo() {
    let frame = render_scan_frame(80, 24, 0, "/", "0.0");
    let rows: Vec<&str> = frame.split("\r\n").collect();
    let title = rows[1 + 16];
    assert!(title.starts_with(&" ".repeat(12)));
    assert!(title.contains("|  _ \\ _   _ ___ |"));
}

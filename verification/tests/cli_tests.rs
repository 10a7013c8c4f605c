use dustbunny::cli::{help_text, parse_args, same_text, Command};

fn args(list: &[&str]) -> Vec<String> {
    list.iter().map(|s| s.to_string()).collect()
}

#[test]
fn help_flag_wins() {
    assert_eq!(parse_args(&args(&["--summary", "/tmp", "-h"])), Command::Help);
    assert_eq!(parse_args(&args(&["--help"])), Command::Help);
}

#[test]
fn summary_flag_and_first_path() {
    assert_eq!(
        parse_args(&args(&["--summary", "/tmp", "/var"])),
        Command::Run { summary: true, path: Some("/tmp".to_string()) }
    );
    assert_eq!(parse_args(&args(&["-x", "here"])), Command::Run { summary: false, path: Some("here".to_string()) });
    assert_eq!(parse_args(&args(&[])), Command::Run { summary: false, path: None });
    assert_eq!(parse_args(&args(&["", "x"])), Command::Run { summary: false, path: Some(String::new()) });
}

#[test]
fn help_text_names_the_modes() {
    let text = help_text();
    assert!(text.starts_with("dustbunny - terminal disk usage explorer\n\nUsage:\n  dustbunny [PATH]\n"));
    assert!(text.ends_with("Tab switch focus, r rescan, o open, ? help"));
}

#[test]
fn same_text_compares_characters() {
    assert!(same_text("abc", "abc"));
    assert!(!same_text("abc", "abd"));
    assert!(!same_text("ab", "abc"));
    assert!(same_text("", ""));
}

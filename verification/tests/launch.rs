use astatine::catalog::{Application, Icon};
use astatine::launch::{is_whitespace, resolve, split_command, split_words, LaunchError};

fn app(name: &str, command: &str) -> Application {
    Application {
        name: name.to_string(),
        command: command.to_string(),
        icon: Icon::Svg("/icons/default.svg".to_string()),
    }
}

fn two() -> Vec<Application> {
    vec![app("Firefox", "firefox --new-window"), app("Files", "nautilus")]
}

#[test]
fn resolve_cursor_zero_is_no_selection() {
    assert_eq!(resolve(&two(), 0), Err(LaunchError::NoSelection));
    assert_eq!(resolve(&Vec::new(), 0), Err(LaunchError::NoSelection));
}

#[test]
fn resolve_cursor_in_range_gives_the_command() {
    assert_eq!(resolve(&two(), 1), Ok("firefox --new-window".to_string()));
    assert_eq!(resolve(&two(), 2), Ok("nautilus".to_string()));
}

#[test]
fn resolve_cursor_behind_the_view_is_out_of_range() {
    assert_eq!(resolve(&two(), 3), Err(LaunchError::OutOfRange));
    assert_eq!(resolve(&two(), 5), Err(LaunchError::OutOfRange));
    assert_eq!(resolve(&two(), usize::MAX), Err(LaunchError::OutOfRange));
    assert_eq!(resolve(&Vec::new(), 1), Err(LaunchError::OutOfRange));
}

#[test]
fn split_command_of_one_word() {
    let invocation = split_command("nautilus").unwrap();
    assert_eq!(invocation.program, "nautilus");
    assert!(invocation.args.is_empty());
}

#[test]
fn split_command_with_arguments() {
    let invocation = split_command("firefox --new-window %u").unwrap();
    assert_eq!(invocation.program, "firefox");
    assert_eq!(invocation.args, vec!["--new-window", "%u"]);
}

#[test]
fn split_command_knows_no_quoting() {
    let invocation = split_command("sh -c \"echo hello world\"").unwrap();
    assert_eq!(invocation.program, "sh");
    assert_eq!(invocation.args, vec!["-c", "\"echo", "hello", "world\""]);
}

#[test]
fn split_command_skips_runs_of_white_space() {
    let invocation = split_command("  \tenv   A=1\n\tprogram \r\n").unwrap();
    assert_eq!(invocation.program, "env");
    assert_eq!(invocation.args, vec!["A=1", "program"]);
}

#[test]
fn split_command_without_a_word_is_none() {
    assert!(split_command("").is_none());
    assert!(split_command(" ").is_none());
    assert!(split_command(" \t\n\u{a0}\u{3000} ").is_none());
}

#[test]
fn split_words_agrees_with_std() {
    let samples = [
        "",
        " ",
        "a",
        " a",
        "a ",
        "a b",
        "nautilus",
        "firefox --new-window %u",
        "  leading and trailing  ",
        "tabs\tand\nnewlines\r\nand\u{b}vertical\u{c}feeds",
        "no\u{a0}break\u{2003}em\u{3000}ideographic\u{85}next\u{1680}ogham",
        "\u{2028}line\u{2029}paragraph\u{202f}narrow\u{205f}math\u{2000}\u{200a}",
        "zero\u{200b}width is no space",
        "ünïcödé wörds ärè këpt",
        "x\u{1f}y\u{1c}z",
    ];
    for sample in samples {
        let expected: Vec<String> = sample.split_whitespace().map(|w| w.to_string()).collect();
        assert_eq!(split_words(sample), expected);
    }
}

#[test]
fn is_whitespace_agrees_with_std_on_every_character() {
    for code in 0..=0x10FFFFu32 {
        if let Some(c) = char::from_u32(code) {
            assert_eq!(is_whitespace(c), c.is_whitespace());
        }
    }
}

#[test]
fn words_hold_every_other_character_in_order() {
    let sample = " one  two\tthree \n";
    let joined: String = split_words(sample).concat();
    let expected: String = sample.chars().filter(|c| !c.is_whitespace()).collect();
    assert_eq!(joined, expected);
    for word in split_words(sample) {
        assert!(!word.is_empty());
        assert!(!word.chars().any(|c| c.is_whitespace()));
    }
}

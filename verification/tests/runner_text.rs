use kitty_test_harness::runner::{render_dump, shell_escape, should_filter_stderr, trim_blank_lines};

#[test]
fn shell_escape_plain_args() {
    let args = vec!["cargo".to_string(), "test".to_string(), "--all".to_string()];
    // `--all` is plain: letters and dashes need no quoting
    assert_eq!(shell_escape(&args), "cargo test --all");
}

#[test]
fn shell_escape_quotes_specials() {
    let args = vec!["echo".to_string(), "hello world".to_string()];
    assert_eq!(shell_escape(&args), "echo 'hello world'");
}

#[test]
fn shell_escape_embedded_quote() {
    let args = vec!["it's".to_string()];
    assert_eq!(shell_escape(&args), "'it'\\''s'");
}

#[test]
fn stderr_filter_matches_noise() {
    assert!(should_filter_stderr("libEGL warning: DRI3 error"));
    assert!(should_filter_stderr("MESA: error: something"));
    assert!(should_filter_stderr("prefix org.freedesktop.portal.Desktop suffix"));
    assert!(!should_filter_stderr("a real error from the program"));
}

#[test]
fn trim_blank_lines_both_ends() {
    let lines = vec![
        "".to_string(),
        "  ".to_string(),
        "first".to_string(),
        "".to_string(),
        "last".to_string(),
        "\t".to_string(),
    ];
    assert_eq!(
        trim_blank_lines(&lines),
        vec!["first".to_string(), "".to_string(), "last".to_string()]
    );
}

#[test]
fn trim_blank_lines_all_blank() {
    let lines = vec!["".to_string(), "   ".to_string()];
    assert_eq!(trim_blank_lines(&lines), Vec::<String>::new());
}

#[test]
fn render_dump_collects_drawn_text() {
    let lines = vec![
        "draw hello".to_string(),
        "screen_linefeed".to_string(),
        "screen_carriage_return".to_string(),
        "draw world".to_string(),
    ];
    let (text, code) = render_dump(&lines);
    assert_eq!(text, "hello\nworld");
    assert_eq!(code, None);
}

#[test]
fn render_dump_reads_exit_code() {
    let lines = vec![
        "draw out".to_string(),
        "draw KITTY_RUNNER_EXIT_CODE:3".to_string(),
    ];
    let (text, code) = render_dump(&lines);
    assert_eq!(text, "out");
    assert_eq!(code, Some(3));
}

#[test]
fn render_dump_bad_exit_code_is_none() {
    let lines = vec!["draw KITTY_RUNNER_EXIT_CODE:notanumber".to_string()];
    let (_, code) = render_dump(&lines);
    assert_eq!(code, None);
}

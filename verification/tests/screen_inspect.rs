use kitty_test_harness::screen::{
    extract_row_colors, extract_row_colors_parsed, fg_color_at_text, find_horizontal_separator_row,
    find_separator_cols_at_row, find_separator_rows_at_col, find_vertical_separator_col, AnsiColor,
};

#[test]
fn test_find_vertical_separator() {
    let screen = "left  │right\n\
                  text  │more\n\
                  here  │data\n\
                  foo   │bar\n\
                  a     │b\n\
                  c     │d";
    assert_eq!(find_vertical_separator_col(screen), Some(6));
}

#[test]
fn test_find_horizontal_separator() {
    let screen = "top content here\n\
                  ────────────────\n\
                  bottom text here";
    assert_eq!(find_horizontal_separator_row(screen), Some(1));
}

#[test]
fn test_separator_rows_at_col() {
    let screen = "a│b\nc│d\ne f";
    let rows = find_separator_rows_at_col(screen, 1);
    assert_eq!(rows, vec![0, 1]);
}

#[test]
fn test_extract_colors_semicolon() {
    let raw = "text\x1b[38;2;255;128;64mcolored\x1b[m";
    let colors = extract_row_colors(raw, 0);
    assert_eq!(colors.len(), 1);
    assert!(colors[0].contains("38;2;255;128;64"));
}

#[test]
fn test_extract_colors_colon() {
    let raw = "text\x1b[38:2:255:128:64mcolored\x1b[m";
    let colors = extract_row_colors(raw, 0);
    assert_eq!(colors.len(), 1);
    assert!(colors[0].contains("38:2:255:128:64"));
}

#[test]
fn test_parse_rgb_color() {
    let seq = "\x1b[38;2;255;128;64m";
    let color = AnsiColor::parse_seq(seq).unwrap();
    assert!(color.is_foreground);
    assert_eq!(color.rgb, Some((255, 128, 64)));
    assert_eq!(color.palette_index, None);
}

#[test]
fn test_parse_palette_color() {
    let seq = "\x1b[38;5;196m";
    let color = AnsiColor::parse_seq(seq).unwrap();
    assert!(color.is_foreground);
    assert_eq!(color.rgb, None);
    assert_eq!(color.palette_index, Some(196));
}

#[test]
fn test_parse_kitty_format() {
    let seq = "\x1b[38:2:100:150:200m";
    let color = AnsiColor::parse_seq(seq).unwrap();
    assert!(color.is_foreground);
    assert_eq!(color.rgb, Some((100, 150, 200)));
}

#[test]
fn separator_needs_more_than_five() {
    // exactly five aligned occurrences are rejected, six are accepted
    let five = "a│b\na│b\na│b\na│b\na│b";
    assert_eq!(find_vertical_separator_col(five), None);
    let six = "a│b\na│b\na│b\na│b\na│b\na│b";
    assert_eq!(find_vertical_separator_col(six), Some(1));

    let five_h = "text\n─────\ntext";
    assert_eq!(find_horizontal_separator_row(five_h), None);
    let six_h = "text\n──────\ntext";
    assert_eq!(find_horizontal_separator_row(six_h), Some(1));
}

#[test]
fn separator_cols_at_row_lists_positions() {
    let screen = "abc\n─x─\nxyz";
    assert_eq!(find_separator_cols_at_row(screen, 1), vec![0, 2]);
    // a row past the end yields nothing
    assert_eq!(find_separator_cols_at_row(screen, 9), Vec::<usize>::new());
}

#[test]
fn parse_seq_background_color() {
    let color = AnsiColor::parse_seq("\x1b[48;2;1;2;3m").unwrap();
    assert!(!color.is_foreground);
    assert_eq!(color.rgb, Some((1, 2, 3)));
}

#[test]
fn parse_seq_rejects_plain_styling() {
    assert_eq!(AnsiColor::parse_seq("\x1b[1m"), None);
    assert_eq!(AnsiColor::parse_seq("\x1b[0m"), None);
}

#[test]
fn extract_row_colors_dedups_and_orders() {
    let raw = "\x1b[38;5;1ma\x1b[38;5;2mb\x1b[38;5;1mc";
    let colors = extract_row_colors(raw, 0);
    assert_eq!(colors, vec!["\x1b[38;5;1m".to_string(), "\x1b[38;5;2m".to_string()]);
}

#[test]
fn extract_row_colors_row_out_of_range() {
    assert_eq!(extract_row_colors("plain", 3), Vec::<String>::new());
}

#[test]
fn extract_row_colors_parsed_keeps_structure() {
    let raw = "x\x1b[38;2;9;8;7my\x1b[m";
    let parsed = extract_row_colors_parsed(raw, 0);
    assert_eq!(parsed.len(), 1);
    assert!(parsed[0].is_foreground);
    assert_eq!(parsed[0].rgb, Some((9, 8, 7)));
}

#[test]
fn fg_color_at_needle() {
    let line = "\x1b[38;2;100;100;100mhello world\x1b[m";
    assert_eq!(fg_color_at_text(line, "hello"), Some((100, 100, 100)));
}

#[test]
fn fg_color_reset_before_needle() {
    let line = "\x1b[38;2;1;2;3mred\x1b[0mplain";
    assert_eq!(fg_color_at_text(line, "plain"), None);
}

#[test]
fn fg_color_needle_absent() {
    assert_eq!(fg_color_at_text("\x1b[38;2;1;2;3mtext\x1b[m", "zzz"), None);
}

#[test]
fn fg_color_tracks_latest_change() {
    let line = "\x1b[38;2;1;1;1ma\x1b[38;2;2;2;2mb";
    assert_eq!(fg_color_at_text(line, "b"), Some((2, 2, 2)));
}

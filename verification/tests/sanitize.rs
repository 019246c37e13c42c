use cmdsift::sanitize::{normalize_line_endings, sanitize};

#[test]
fn strips_ansi_color() {
    assert_eq!(sanitize("\x1b[0;32mwarning:\x1b[0m x"), "warning: x");
}

#[test]
fn normalizes_crlf_and_lone_cr() {
    assert_eq!(sanitize("a\r\nb\rc"), "a\nb\nc");
}

#[test]
fn strips_osc_and_control_chars() {
    assert_eq!(sanitize("\x1b]0;title\x07ok\x07done"), "okdone");
    assert_eq!(sanitize("a\x00\x08b"), "ab");
}

#[test]
fn keeps_tab_and_newline() {
    assert_eq!(sanitize("a\tb\nc"), "a\tb\nc");
}

#[test]
fn strips_cursor_moves_and_other_escapes() {
    assert_eq!(sanitize("\x1b[2Kline\x1b[1A"), "line");
    assert_eq!(sanitize("a\x1bb"), "ab");
    assert_eq!(sanitize("\x1b[31merror:\x1b[m bad"), "error: bad");
}

#[test]
fn normalizes_crlf_pairs_and_trailing_cr() {
    assert_eq!(sanitize("\r\r\n"), "\n\n");
    assert_eq!(sanitize("end\r"), "end\n");
    assert_eq!(sanitize(""), "");
}

#[test]
fn leaves_plain_text_alone() {
    let text = "gcc -Wall -c main.c\nmain.c:1: warning: x [-Wunused]";
    assert_eq!(sanitize(text), text);
}

#[test]
fn output_is_never_longer() {
    for raw in ["\x1b[0mx", "a\r\nb", "plain", "\x0b\x0c", "é\x1b[1m✓"] {
        assert!(sanitize(raw).chars().count() <= raw.chars().count());
    }
}

#[test]
fn line_endings_alone() {
    assert_eq!(normalize_line_endings("a\r\nb\rc\n"), "a\nb\nc\n");
    assert_eq!(normalize_line_endings("\r\r\n\n"), "\n\n\n");
    assert_eq!(normalize_line_endings("\x1b[0m\t"), "\x1b[0m\t");
}

#[test]
fn strips_charset_selection() {
    assert_eq!(sanitize("\x1b(Bx"), "x");
    assert_eq!(sanitize("a\x1b(Bc"), "ac");
}

use cmdsift::command::BUILD_MARKER;
use cmdsift::log::{log_file_name, stamp_lines, LogBuffer};

/// Checks that `line` starts with `[YYYY-MM-DD HH:MM:SS] ` and returns the rest.
fn strip_stamp(line: &str) -> &str {
    let chars: Vec<char> = line.chars().collect();
    assert!(chars.len() >= 22, "line too short for a timestamp: {line:?}");
    for (i, c) in chars[..22].iter().enumerate() {
        let ok = match i {
            0 => *c == '[',
            5 | 8 => *c == '-',
            11 | 21 => *c == ' ',
            14 | 17 => *c == ':',
            20 => *c == ']',
            _ => c.is_ascii_digit(),
        };
        assert!(ok, "line missing timestamp prefix: {line:?}");
    }
    &line[22..]
}

/// Checks every line of `content` for the timestamp prefix and returns the
/// lines without it, joined with newlines.
fn strip_timestamps(content: &str) -> String {
    assert!(!content.is_empty(), "log content should not be empty");
    content.lines().map(strip_stamp).collect::<Vec<_>>().join("\n")
}

/// Writes the pending lines of `log` to `file`, as the program does after
/// each look at the output.
fn flush(log: &mut LogBuffer, file: &mut String) {
    if !log.enabled() || log.pending_is_empty() {
        return;
    }
    file.push_str(&log.timed_batch().expect("clock readable"));
    log.clear_pending();
}

/// Completes the last line and writes what is left.
fn finish(log: &mut LogBuffer, file: &mut String) {
    log.finish_partial();
    flush(log, file);
}

#[test]
fn writes_complete_lines_on_flush() {
    let name = log_file_name().expect("clock readable");
    assert!(
        name.len() == "YYYYMMDD_HHMMSS.log".len() && name.ends_with(".log"),
        "unexpected log file name: {name}"
    );

    let mut log = LogBuffer::new();
    let mut file = String::new();
    log.write_chunk("line1\nline2\n");
    flush(&mut log, &mut file);
    assert_eq!(strip_timestamps(&file), "line1\nline2");

    log.write_chunk("line3\n");
    finish(&mut log, &mut file);
    assert_eq!(strip_timestamps(&file), "line1\nline2\nline3");
}

#[test]
fn joins_partial_lines_across_chunks() {
    let mut log = LogBuffer::new();
    let mut file = String::new();
    log.write_chunk("hel");
    log.write_chunk("lo\nwor");
    log.write_chunk("ld\n");
    flush(&mut log, &mut file);
    assert_eq!(strip_timestamps(&file), "hello\nworld");
}

#[test]
fn sanitizes_before_writing() {
    let mut log = LogBuffer::new();
    let mut file = String::new();
    log.write_chunk("\x1b[0;32mwarning:\x1b[0m x\r\nnext\n");
    flush(&mut log, &mut file);
    assert_eq!(strip_timestamps(&file), "warning: x\nnext");
}

#[test]
fn truncates_at_build_marker() {
    let mut log = LogBuffer::new();
    let mut file = String::new();
    log.write_chunk("compiling...\n___MCP_BUILD_DONE___:0\n");
    finish(&mut log, &mut file);
    assert_eq!(strip_timestamps(&file), "compiling...");
    assert!(!file.contains(BUILD_MARKER));
}

#[test]
fn truncates_marker_split_across_chunks() {
    let mut log = LogBuffer::new();
    let mut file = String::new();
    log.write_chunk("hello\n___MCP_BU");
    log.write_chunk("ILD_DONE___:0\n");
    finish(&mut log, &mut file);
    assert_eq!(strip_timestamps(&file), "hello");
    assert!(!file.contains(BUILD_MARKER));
}

#[test]
fn flushes_residual_partial_line_on_finish() {
    let mut log = LogBuffer::new();
    let mut file = String::new();
    log.write_chunk("line1\nline2-no-newline");
    finish(&mut log, &mut file);
    assert_eq!(strip_timestamps(&file), "line1\nline2-no-newline");
}

#[test]
fn unfinished_line_waits_for_its_end() {
    let mut log = LogBuffer::new();
    log.write_chunk("no newline yet");
    assert!(log.pending_is_empty());
    log.write_chunk(" - now\n");
    assert!(!log.pending_is_empty());
}

#[test]
fn keeps_text_before_marker_on_its_line() {
    let mut log = LogBuffer::new();
    let mut file = String::new();
    log.write_chunk("a\nlast words___MCP_BUILD_DONE___:2\nafter\n");
    log.write_chunk("more after\n");
    finish(&mut log, &mut file);
    assert_eq!(strip_timestamps(&file), "a\nlast words");
}

#[test]
fn marker_without_line_end_is_not_cut_yet() {
    let mut log = LogBuffer::new();
    let mut file = String::new();
    log.write_chunk("x\n___MCP_BUILD_DONE___:0");
    flush(&mut log, &mut file);
    assert_eq!(strip_timestamps(&file), "x");
    // Completing the line reveals the marker: nothing more is logged.
    finish(&mut log, &mut file);
    assert_eq!(strip_timestamps(&file), "x");
}

#[test]
fn chunking_does_not_change_the_log() {
    let stream = "one\ntwo\r\nthree\n___MCP_BUILD_DONE___:0\ntail\n";
    let mut whole = LogBuffer::new();
    let mut whole_file = String::new();
    whole.write_chunk(stream);
    finish(&mut whole, &mut whole_file);

    let mut pieces = LogBuffer::new();
    let mut pieces_file = String::new();
    let chars: Vec<char> = stream.chars().collect();
    for piece in chars.chunks(3) {
        let piece: String = piece.iter().collect();
        pieces.write_chunk(&piece);
        flush(&mut pieces, &mut pieces_file);
    }
    finish(&mut pieces, &mut pieces_file);
    assert_eq!(strip_timestamps(&whole_file), "one\ntwo\nthree");
    assert_eq!(strip_timestamps(&pieces_file), "one\ntwo\nthree");
}

#[test]
fn disabled_log_takes_nothing() {
    let mut log = LogBuffer::new();
    log.write_chunk("kept\n");
    log.disable();
    assert!(!log.enabled());
    log.write_chunk("dropped\n");
    log.finish_partial();
    let mut file = String::new();
    file.push_str(&log.timed_batch().expect("clock readable"));
    assert_eq!(strip_timestamps(&file), "kept");
}

#[test]
fn empty_batch_is_empty() {
    let mut log = LogBuffer::new();
    assert!(log.pending_is_empty());
    assert_eq!(log.timed_batch().expect("clock readable"), "");
}

#[test]
fn stamp_lines_prefixes_each_line() {
    assert_eq!(stamp_lines("a\nb\n", "> "), "> a\n> b\n");
    assert_eq!(stamp_lines("a\r\nb", "[t] "), "[t] a\n[t] b\n");
    assert_eq!(stamp_lines("", "> "), "");
    assert_eq!(stamp_lines("\n\nx", "-"), "-\n-\n-x\n");
}

#[test]
fn log_file_name_is_a_timestamp() {
    let name = log_file_name().expect("clock readable");
    let stamp = name.strip_suffix(".log").unwrap();
    let chars: Vec<char> = stamp.chars().collect();
    assert_eq!(chars.len(), 15);
    for (i, c) in chars.iter().enumerate() {
        if i == 8 {
            assert_eq!(*c, '_');
        } else {
            assert!(c.is_ascii_digit(), "unexpected character in {name}");
        }
    }
}

#[test]
fn marker_hidden_by_control_character_is_cut() {
    let mut log = LogBuffer::new();
    let mut file = String::new();
    log.write_chunk("ok\n___MCP_BUILD\x01_DONE___:0\nafter\n");
    finish(&mut log, &mut file);
    assert_eq!(strip_timestamps(&file), "ok");
    assert!(!file.contains(BUILD_MARKER));
}

#[test]
fn marker_hidden_by_colour_codes_is_cut_after_its_text() {
    let mut log = LogBuffer::new();
    let mut file = String::new();
    log.write_chunk("\x1b[1mbuilt ___MCP\x1b[0m_BUILD_DONE___:0\nmore\n");
    finish(&mut log, &mut file);
    assert_eq!(strip_timestamps(&file), "built ");
    assert!(!file.contains(BUILD_MARKER));
}

#[test]
fn escape_sequences_are_cleaned() {
    let mut log = LogBuffer::new();
    let mut file = String::new();
    log.write_chunk("\x1b(Bplain\r\n\x1b[31mred\x1b[0m\n");
    finish(&mut log, &mut file);
    assert_eq!(strip_timestamps(&file), "plain\nred");
}

#[test]
fn batch_is_cleaned_as_a_whole() {
    let mut log = LogBuffer::new();
    let mut file = String::new();
    log.write_chunk("\x1b]0;a\nb\x07c\n");
    flush(&mut log, &mut file);
    assert_eq!(strip_timestamps(&file), "c");
}

#[test]
fn cleaned_marker_ends_the_log() {
    let mut log = LogBuffer::new();
    let mut file = String::new();
    log.write_chunk("x___MCP_BUILD\x01_DONE___\n");
    flush(&mut log, &mut file);
    assert!(!log.enabled());
    log.write_chunk("later\n");
    finish(&mut log, &mut file);
    assert_eq!(strip_timestamps(&file), "x");
}

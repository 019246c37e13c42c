use cmdsift::classify::{
    category_from_hits, classify_line, collect_output, format_build_result, tail_lines,
    BuildCategory, BuildCollector, LineClassifier, TAIL_LINES,
};

#[test]
fn classifies_gcc_error() {
    assert_eq!(
        classify_line("main.c:10:5: error: expected ';'"),
        BuildCategory::Error
    );
}

#[test]
fn classifies_link_and_make_errors() {
    assert_eq!(
        classify_line("ld: undefined reference to `foo'"),
        BuildCategory::Error
    );
    assert_eq!(
        classify_line("make[2]: *** [subdir/foo.o] Error 1"),
        BuildCategory::Error
    );
    assert_eq!(
        classify_line("collect2: error: ld returned 1 exit status"),
        BuildCategory::Error
    );
}

#[test]
fn classifies_warnings() {
    assert_eq!(
        classify_line("main.c:3:7: warning: unused variable [-Wunused-variable]"),
        BuildCategory::Warning
    );
    assert_eq!(
        classify_line("note: 'strdup' is deprecated"),
        BuildCategory::Warning
    );
}

#[test]
fn does_not_treat_cflags_as_warning() {
    assert_eq!(
        classify_line("gcc -Wall -Wextra -c main.c"),
        BuildCategory::Info
    );
}

#[test]
fn classifies_plain_lines_as_info() {
    assert_eq!(classify_line("Compiling main.c ..."), BuildCategory::Info);
}

#[test]
fn collects_and_formats() {
    let mut collector = BuildCollector::default();
    collect_output(
        &mut collector,
        "gcc -c main.c\nmain.c:1: error: boom\nmain.c:2: warning: hmm\n\n",
    );
    assert_eq!(collector.errors.len(), 1);
    assert_eq!(collector.warnings.len(), 1);
    assert_eq!(collector.info_count, 1);
    let formatted = format_build_result(&collector, 1);
    assert!(formatted.starts_with("BUILD FAILED (exit code: 1)"));
    assert!(formatted.contains("[E1] main.c:1: error: boom"));
    assert!(formatted.contains("[W1] main.c:2: warning: hmm"));
}

#[test]
fn tail_lines_behaviour() {
    assert_eq!(tail_lines("", TAIL_LINES), "(no output)");
    assert_eq!(tail_lines("a\nb", TAIL_LINES), "a\nb");
    let long: String = (1..=60).map(|i| format!("line{i}\n")).collect();
    let tailed = tail_lines(long.trim_end(), 50);
    assert!(tailed.starts_with("...(truncated 10 lines)\n"));
    assert!(tailed.ends_with("line60"));
    assert!(!tailed.contains("line10\n"));
}

#[test]
fn error_takes_precedence_over_warning() {
    assert_eq!(
        classify_line("warning: treating as error: something failed: x"),
        BuildCategory::Error
    );
}

#[test]
fn classifies_other_error_forms() {
    assert_eq!(classify_line("fatal: not a git repository"), BuildCategory::Error);
    assert_eq!(
        classify_line("make: *** No rule to make target 'x'.  Stop."),
        BuildCategory::Error
    );
    assert_eq!(classify_line("/usr/bin/ld: cannot find -lfoo"), BuildCategory::Error);
    assert_eq!(classify_line("Can't find the header"), BuildCategory::Error);
    assert_eq!(
        classify_line("main.c:1:10: fatal error: foo.h: No such file or directory"),
        BuildCategory::Error
    );
    assert_eq!(classify_line("[ERROR] step 3"), BuildCategory::Error);
    assert_eq!(classify_line("step failed: 2"), BuildCategory::Error);
}

#[test]
fn classifies_other_warning_forms() {
    assert_eq!(classify_line("[WARN] disk almost full"), BuildCategory::Warning);
    assert_eq!(classify_line("[WARNING] slow step"), BuildCategory::Warning);
    assert_eq!(classify_line("x.c: In function 'f' [-Wimplicit]"), BuildCategory::Warning);
}

#[test]
fn word_boundaries_are_respected() {
    // "errors" and "terror" are not the word "error" followed by a separator.
    assert_eq!(classify_line("0 errors found"), BuildCategory::Info);
    assert_eq!(classify_line("terror: none"), BuildCategory::Info);
}

#[test]
fn classifier_matches_classify_line() {
    let classifier = LineClassifier::new();
    for line in [
        "main.c:10:5: error: expected ';'",
        "main.c:3:7: warning: unused variable [-Wunused-variable]",
        "Compiling main.c ...",
    ] {
        assert_eq!(classifier.classify(line), classify_line(line));
    }
}

#[test]
fn collect_trims_and_skips_blank_lines() {
    let mut collector = BuildCollector::default();
    collect_output(&mut collector, "  \t\n   error: spaced out   \n\n  plain  \n");
    assert_eq!(collector.errors, vec!["error: spaced out".to_string()]);
    assert!(collector.warnings.is_empty());
    assert_eq!(collector.info_count, 1);
}

#[test]
fn collect_appends_to_existing_lists() {
    let mut collector = BuildCollector::default();
    collect_output(&mut collector, "error: one\ninfo");
    collect_output(&mut collector, "warning: two\nerror: three\nmore info");
    assert_eq!(
        collector.errors,
        vec!["error: one".to_string(), "error: three".to_string()]
    );
    assert_eq!(collector.warnings, vec!["warning: two".to_string()]);
    assert_eq!(collector.info_count, 2);
}

#[test]
fn collect_empty_output_adds_nothing() {
    let mut collector = BuildCollector::default();
    collect_output(&mut collector, "");
    assert!(collector.errors.is_empty());
    assert!(collector.warnings.is_empty());
    assert_eq!(collector.info_count, 0);
}

#[test]
fn formats_success_without_findings() {
    let collector = BuildCollector::default();
    assert_eq!(
        format_build_result(&collector, 0),
        "BUILD SUCCESS (exit code: 0)\n\
         Summary: 0 error(s), 0 warning(s), 0 info line(s)\n\
         \n\
         === ERRORS (0) ===\n\
         (none)\n\
         \n\
         === WARNINGS (0) ===\n\
         (none)"
    );
}

#[test]
fn formats_numbered_findings() {
    let collector = BuildCollector {
        errors: vec!["e one".to_string(), "e two".to_string()],
        warnings: vec!["w one".to_string()],
        info_count: 7,
    };
    assert_eq!(
        format_build_result(&collector, -1),
        "BUILD FAILED (exit code: -1)\n\
         Summary: 2 error(s), 1 warning(s), 7 info line(s)\n\
         \n\
         === ERRORS (2) ===\n\
         [E1] e one\n\
         [E2] e two\n\
         \n\
         === WARNINGS (1) ===\n\
         [W1] w one"
    );
}

#[test]
fn tail_keeps_exactly_n_lines() {
    assert_eq!(tail_lines("a\nb\nc", 3), "a\nb\nc");
    assert_eq!(tail_lines("a\nb\nc", 2), "...(truncated 1 lines)\nb\nc");
    assert_eq!(tail_lines("a\nb\nc\n", 2), "...(truncated 2 lines)\nc\n");
    assert_eq!(tail_lines("a\nb", 0), "...(truncated 2 lines)\n");
}

#[test]
fn tail_is_end_of_text() {
    let text = "x1\nx2\nx3\nx4\nx5";
    let tailed = tail_lines(text, 2);
    let kept = tailed.strip_prefix("...(truncated 3 lines)\n").unwrap();
    assert!(text.ends_with(kept));
    assert_eq!(kept, "x4\nx5");
}

#[test]
fn category_from_hits_prefers_errors() {
    assert_eq!(category_from_hits(true, true), BuildCategory::Error);
    assert_eq!(category_from_hits(true, false), BuildCategory::Error);
    assert_eq!(category_from_hits(false, true), BuildCategory::Warning);
    assert_eq!(category_from_hits(false, false), BuildCategory::Info);
}

#[test]
fn record_files_each_category() {
    let mut collector = BuildCollector::default();
    collector.record("e".to_string(), BuildCategory::Error);
    collector.record("w".to_string(), BuildCategory::Warning);
    collector.record("i".to_string(), BuildCategory::Info);
    collector.record("e2".to_string(), BuildCategory::Error);
    assert_eq!(collector.errors, vec!["e".to_string(), "e2".to_string()]);
    assert_eq!(collector.warnings, vec!["w".to_string()]);
    assert_eq!(collector.info_count, 1);
}

#[test]
fn empty_text_gives_placeholder_for_any_count() {
    assert_eq!(tail_lines("", 0), "(no output)");
    assert_eq!(tail_lines("", 1), "(no output)");
}

#[test]
fn collecting_in_two_runs_equals_once() {
    let a = "error: one\ninfo a\nwarning: w1";
    let b = "  \nerror: two\ninfo b";
    let mut twice = BuildCollector::default();
    collect_output(&mut twice, a);
    collect_output(&mut twice, b);
    let mut once = BuildCollector::default();
    collect_output(&mut once, &format!("{a}\n{b}"));
    assert_eq!(twice.errors, once.errors);
    assert_eq!(twice.warnings, once.warnings);
    assert_eq!(twice.info_count, once.info_count);
}

#[test]
fn blank_output_changes_nothing() {
    let mut collector = BuildCollector::default();
    collect_output(&mut collector, "error: kept");
    collect_output(&mut collector, " \n\t\n\n   ");
    assert_eq!(collector.errors, vec!["error: kept".to_string()]);
    assert!(collector.warnings.is_empty());
    assert_eq!(collector.info_count, 0);
}

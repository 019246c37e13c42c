use cmdsift::command::BUILD_MARKER;
use cmdsift::runner::{cut_at_marker, next_step, BuildOutcome, BuildSession, Step};

#[test]
fn marker_ends_the_run_with_its_code() {
    let mut session = BuildSession::new();
    let (chunk, found) = session.on_output("hello\n___MCP_BUILD_DONE___:0\n");
    assert!(found);
    assert_eq!(chunk, "hello\n___MCP_BUILD_DONE___:0\n");
    let rest = session.finish("");
    assert_eq!(rest, "");
    let outcome: BuildOutcome = session.into_outcome();
    assert_eq!(outcome.exit_code, Some(0));
    assert_eq!(outcome.output, "hello");
}

#[test]
fn failure_code_is_passed_through() {
    let mut session = BuildSession::new();
    let (_, found) = session.on_output("oops\n___MCP_BUILD_DONE___:3\n");
    assert!(found);
    session.finish("");
    let outcome = session.into_outcome();
    assert_eq!(outcome.exit_code, Some(3));
    assert!(outcome.output.contains("oops"));
    assert!(!outcome.output.contains(BUILD_MARKER));
}

#[test]
fn marker_split_across_reads() {
    let mut session = BuildSession::new();
    let (first, found) = session.on_output("abc\n___MCP_BU");
    assert!(!found);
    assert_eq!(first, "abc\n___MCP_BU");
    let (second, found) = session.on_output("ILD_DONE___:7\n");
    assert!(found);
    assert_eq!(second, "ILD_DONE___:7\n");
    let outcome = session.into_outcome();
    assert_eq!(outcome.exit_code, Some(7));
    assert_eq!(outcome.output, "abc");
}

#[test]
fn log_gets_each_piece_once() {
    let mut session = BuildSession::new();
    let (a, _) = session.on_output("one\n");
    let (b, _) = session.on_output("");
    let (c, _) = session.on_output("two\n");
    assert_eq!(a, "one\n");
    assert_eq!(b, "");
    assert_eq!(c, "two\n");
}

#[test]
fn trailing_white_space_before_marker_is_dropped() {
    let mut session = BuildSession::new();
    let (_, found) = session.on_output("done  \n\n___MCP_BUILD_DONE___:0\ntrailing junk");
    assert!(found);
    let outcome = session.into_outcome();
    assert_eq!(outcome.output, "done");
}

#[test]
fn marker_with_unreadable_code_is_not_a_match() {
    let mut session = BuildSession::new();
    let (_, found) = session.on_output("x\n___MCP_BUILD_DONE___:99999999999\n");
    assert!(!found);
    session.finish("");
    let outcome = session.into_outcome();
    assert_eq!(outcome.exit_code, None);
    assert_eq!(outcome.output, "x\n___MCP_BUILD_DONE___:99999999999");
}

#[test]
fn child_exit_without_marker_uses_status() {
    let mut session = BuildSession::new();
    session.on_output("partial output\n");
    session.on_child_exit("more\n", Some(5));
    session.finish("");
    let outcome = session.into_outcome();
    assert_eq!(outcome.exit_code, Some(5));
    assert_eq!(outcome.output, "partial output\nmore");
}

#[test]
fn child_exit_by_signal_gives_minus_one() {
    let mut session = BuildSession::new();
    session.on_child_exit("", None);
    let outcome = session.into_outcome();
    assert_eq!(outcome.exit_code, Some(-1));
    assert_eq!(outcome.output, "");
}

#[test]
fn late_marker_wins_over_status() {
    let mut session = BuildSession::new();
    session.on_output("building\n");
    session.on_child_exit("___MCP_BUILD_DONE___:2\n", Some(0));
    let outcome = session.into_outcome();
    assert_eq!(outcome.exit_code, Some(2));
    assert_eq!(outcome.output, "building");
}

#[test]
fn timeout_keeps_partial_output() {
    let mut session = BuildSession::new();
    session.on_output("step 1\n");
    let rest = session.finish("step 2\n\n");
    assert_eq!(rest, "step 2");
    let outcome = session.into_outcome();
    assert_eq!(outcome.exit_code, None);
    assert_eq!(outcome.output, "step 1\nstep 2");
}

#[test]
fn finish_hands_the_log_what_came_after_the_marker_cut() {
    let mut session = BuildSession::new();
    let (chunk, found) = session.on_output("a\n___MCP_BUILD_DONE___:0\n");
    assert!(found);
    assert_eq!(chunk, "a\n___MCP_BUILD_DONE___:0\n");
    // Late stderr text is appended to the cut output.
    let rest = session.finish("\nlate error: x\n");
    assert_eq!(rest, "");
    let outcome = session.into_outcome();
    assert_eq!(outcome.output, "a\nlate error: x");
}

fn caps(whole: &str, group: Option<&str>) -> Option<(String, Option<String>)> {
    Some((whole.to_string(), group.map(|g| g.to_string())))
}

#[test]
fn cut_at_marker_cuts_where_the_match_starts() {
    let mut output = "ab  \n___MCP_BUILD_DONE___:3\nafter".to_string();
    let code = cut_at_marker(&mut output, caps("___MCP_BUILD_DONE___:3", Some("3")));
    assert_eq!(code, Some(3));
    assert_eq!(output, "ab");
}

#[test]
fn cut_at_marker_leaves_output_without_a_valid_code() {
    let original = "x ___MCP_BUILD_DONE___:1".to_string();
    let mut output = original.clone();
    assert_eq!(cut_at_marker(&mut output, None), None);
    assert_eq!(output, original);
    assert_eq!(cut_at_marker(&mut output, caps("___MCP_BUILD_DONE___:", None)), None);
    assert_eq!(output, original);
    assert_eq!(
        cut_at_marker(&mut output, caps("___MCP_BUILD_DONE___:9999999999", Some("9999999999"))),
        None
    );
    assert_eq!(output, original);
    // A match that is not in the output cuts nothing.
    assert_eq!(cut_at_marker(&mut output, caps("elsewhere:1", Some("1"))), None);
    assert_eq!(output, original);
}

#[test]
fn cut_at_marker_reads_negative_and_signed_codes() {
    let mut output = "M:-2".to_string();
    assert_eq!(cut_at_marker(&mut output, caps("M:-2", Some("-2"))), Some(-2));
    assert_eq!(output, "");
    let mut output = "a\tM:+4".to_string();
    assert_eq!(cut_at_marker(&mut output, caps("M:+4", Some("+4"))), Some(4));
    assert_eq!(output, "a");
}

#[test]
fn next_step_order_of_decisions() {
    assert_eq!(next_step(true, true, 10_000, 5), Step::Finished);
    assert_eq!(next_step(false, true, 10_000, 5), Step::ChildExited);
    assert_eq!(next_step(false, false, 5, 5), Step::TimedOut);
    assert_eq!(next_step(false, false, 4, 5), Step::KeepWaiting);
    assert_eq!(next_step(false, false, 0, 0), Step::TimedOut);
}

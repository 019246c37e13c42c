use cmdsift::cli::{
    exit_status, parse_args, parse_ms, render_report, resolve_log_dir, take_value, Cli, Parsed,
    DEFAULT_MAX_WAIT_MS, DEFAULT_POLL_INTERVAL_MS, EXIT_SPAWN, EXIT_TIMEOUT, EXIT_USAGE,
};

fn args(list: &[&str]) -> Vec<String> {
    list.iter().map(|s| s.to_string()).collect()
}

fn run(list: &[&str]) -> Cli {
    match parse_args(args(list)) {
        Ok(Parsed::Run(cli)) => cli,
        Ok(Parsed::Help) => panic!("unexpected help"),
        Ok(Parsed::Version) => panic!("unexpected version"),
        Err(e) => panic!("unexpected error: {e}"),
    }
}

fn error(list: &[&str]) -> String {
    match parse_args(args(list)) {
        Err(e) => e,
        Ok(_) => panic!("expected an error"),
    }
}

#[test]
fn defaults_with_single_command() {
    let cli = run(&["make -j8"]);
    assert_eq!(cli.command, "make -j8");
    assert_eq!(cli.cwd, None);
    assert_eq!(cli.max_wait_ms, DEFAULT_MAX_WAIT_MS);
    assert_eq!(cli.poll_interval_ms, DEFAULT_POLL_INTERVAL_MS);
    assert!(cli.classify);
    assert!(cli.log_enabled);
    assert_eq!(cli.log_dir, None);
}

#[test]
fn options_with_separate_and_inline_values() {
    let cli = run(&[
        "-C",
        "/srv/kernel",
        "-m",
        "1800000",
        "--poll-interval=500",
        "--log-file=/var/log",
        "--no-classify",
        "./build.sh alpha -a -c",
    ]);
    assert_eq!(cli.command, "./build.sh alpha -a -c");
    assert_eq!(cli.cwd.as_deref(), Some("/srv/kernel"));
    assert_eq!(cli.max_wait_ms, 1_800_000);
    assert_eq!(cli.poll_interval_ms, 500);
    assert!(!cli.classify);
    assert!(cli.log_enabled);
    assert_eq!(cli.log_dir.as_deref(), Some("/var/log"));
}

#[test]
fn double_dash_takes_the_rest_as_command() {
    let cli = run(&["--no-classify", "--", "make", "-j8", "--no-log-file"]);
    assert_eq!(cli.command, "make -j8 --no-log-file");
    assert!(!cli.classify);
    assert!(cli.log_enabled);
}

#[test]
fn command_parts_are_joined_with_spaces() {
    let cli = run(&["make", "all", "--no-log-file", "install"]);
    assert_eq!(cli.command, "make all install");
    assert!(!cli.log_enabled);
}

#[test]
fn later_option_wins() {
    let cli = run(&["-C", "/a", "--cwd=/b", "-L", "x", "-L", "y", "true"]);
    assert_eq!(cli.cwd.as_deref(), Some("/b"));
    assert_eq!(cli.log_dir.as_deref(), Some("y"));
}

#[test]
fn help_and_version() {
    assert!(matches!(parse_args(args(&["-h"])), Ok(Parsed::Help)));
    assert!(matches!(parse_args(args(&["make", "--help"])), Ok(Parsed::Help)));
    assert!(matches!(parse_args(args(&["-V"])), Ok(Parsed::Version)));
    assert!(matches!(parse_args(args(&["--version", "-h"])), Ok(Parsed::Version)));
    // After `--` they are part of the command.
    assert_eq!(run(&["--", "-h"]).command, "-h");
}

#[test]
fn argument_errors() {
    assert_eq!(error(&[]), "missing command");
    assert_eq!(error(&["--no-classify"]), "missing command");
    assert_eq!(error(&["--"]), "missing command");
    assert_eq!(error(&["-x", "make"]), "unknown option: -x");
    assert_eq!(error(&["--frobnicate=3", "make"]), "unknown option: --frobnicate");
    assert_eq!(error(&["make", "-C"]), "option --cwd requires a value");
    assert_eq!(error(&["make", "--log-file"]), "option --log-file requires a value");
    assert_eq!(
        error(&["-m", "ten", "make"]),
        "option --max-wait expects a non-negative integer, got 'ten'"
    );
    assert_eq!(
        error(&["--poll-interval=-5", "make"]),
        "option --poll-interval expects a non-negative integer, got '-5'"
    );
}

#[test]
fn lone_dash_is_a_command_part() {
    assert_eq!(run(&["cat", "-"]).command, "cat -");
}

#[test]
fn equals_sign_in_short_option_is_not_split() {
    assert_eq!(error(&["-C=/tmp", "make"]), "unknown option: -C=/tmp");
    assert_eq!(run(&["VAR=1", "make"]).command, "VAR=1 make");
}

#[test]
fn take_value_prefers_inline() {
    let list = args(&["next"]);
    let mut pos = 0usize;
    assert_eq!(take_value(&list, &mut pos, Some("inline"), "--cwd"), Ok("inline".to_string()));
    assert_eq!(pos, 0);
    assert_eq!(take_value(&list, &mut pos, None, "--cwd"), Ok("next".to_string()));
    assert_eq!(pos, 1);
    assert_eq!(
        take_value(&list, &mut pos, None, "--cwd"),
        Err("option --cwd requires a value".to_string())
    );
    assert_eq!(pos, 1);
}

#[test]
fn parse_ms_values() {
    assert_eq!(parse_ms("0".to_string(), "-m"), Ok(0));
    assert_eq!(parse_ms("+42".to_string(), "-m"), Ok(42));
    assert_eq!(parse_ms("18446744073709551615".to_string(), "-m"), Ok(u64::MAX));
    assert!(parse_ms("18446744073709551616".to_string(), "-m").is_err());
    assert_eq!(
        parse_ms("".to_string(), "--max-wait"),
        Err("option --max-wait expects a non-negative integer, got ''".to_string())
    );
    assert!(parse_ms(" 1".to_string(), "-m").is_err());
}

#[test]
fn report_classified_success() {
    let report = render_report(Some(0), 1000, true, "gcc -c a.c\n\x1b[35mwarning:\x1b[0m w\n");
    assert_eq!(
        report,
        "BUILD SUCCESS (exit code: 0)\n\
         Summary: 0 error(s), 1 warning(s), 1 info line(s)\n\
         \n\
         === ERRORS (0) ===\n\
         (none)\n\
         \n\
         === WARNINGS (1) ===\n\
         [W1] warning: w"
    );
}

#[test]
fn report_classified_timeout() {
    let report = render_report(None, 600, true, "error: e\r\n");
    assert_eq!(
        report,
        "Build timed out after 600ms.\n\
         Partial: 1 error(s), 0 warning(s).\n\
         \n\
         BUILD FAILED (exit code: -1)\n\
         Summary: 1 error(s), 0 warning(s), 0 info line(s)\n\
         \n\
         === ERRORS (1) ===\n\
         [E1] error: e\n\
         \n\
         === WARNINGS (0) ===\n\
         (none)"
    );
}

#[test]
fn report_tail_modes() {
    assert_eq!(
        render_report(Some(2), 1, false, "a\nb"),
        "BUILD FAILED (exit code: 2)\n\na\nb"
    );
    assert_eq!(
        render_report(Some(0), 1, false, ""),
        "BUILD SUCCESS (exit code: 0)\n\n(no output)"
    );
    assert_eq!(
        render_report(None, 250, false, "x"),
        "Build timed out after 250ms.\n\nPartial output:\nx"
    );
}

#[test]
fn exit_status_values() {
    assert_eq!(exit_status(None), EXIT_TIMEOUT);
    assert_eq!(exit_status(Some(0)), 0);
    assert_eq!(exit_status(Some(3)), 3);
    assert_eq!(exit_status(Some(300)), 255);
    assert_eq!(exit_status(Some(-1)), 0);
    assert_eq!(EXIT_USAGE, 2);
    assert_eq!(EXIT_SPAWN, 126);
}

#[test]
fn log_dir_follows_options() {
    assert_eq!(resolve_log_dir(None, None), "log");
    assert_eq!(resolve_log_dir(None, Some("/srv/kernel")), "/srv/kernel/log");
    assert_eq!(resolve_log_dir(None, Some("/srv/kernel/")), "/srv/kernel/log");
    assert_eq!(resolve_log_dir(Some("/var/log"), Some("/srv/kernel")), "/var/log");
    assert_eq!(resolve_log_dir(Some("out"), None), "out");
}

#[test]
fn inline_and_separate_values_read_the_same() {
    for (name, value) in [("--cwd", "/x y"), ("--log-file", "=odd"), ("--max-wait", "15"), ("--poll-interval", "0")] {
        let separate = run(&[name, value, "make"]);
        let joined = format!("{name}={value}");
        let inline = run(&[joined.as_str(), "make"]);
        assert_eq!(separate.cwd, inline.cwd);
        assert_eq!(separate.log_dir, inline.log_dir);
        assert_eq!(separate.max_wait_ms, inline.max_wait_ms);
        assert_eq!(separate.poll_interval_ms, inline.poll_interval_ms);
        assert_eq!(separate.command, inline.command);
    }
}

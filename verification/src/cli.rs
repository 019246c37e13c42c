//! Command-line arguments and the final report of a run.

use vstd::prelude::*;

use crate::classify::{
    collect_output, collected, format_build_result, lemma_non_blank_lines_bound, result_lines, status_line, tail_lines,
    tail_lines_spec, BuildCollector, TAIL_LINES,
};
use crate::command::opt_view;
use crate::sanitize::{sanitize, sanitized};
use crate::text::{
    chars_of, decimal, join_with, parse_u64_chars, parse_u64_spec, push_decimal, push_joined,
    push_range, push_str, signed_decimal, split_on, views,
};

verus! {

/// Default longest wait for the build, in milliseconds (10 minutes).
pub const DEFAULT_MAX_WAIT_MS: u64 = 600_000;

/// Default interval between two looks at the output, in milliseconds.
pub const DEFAULT_POLL_INTERVAL_MS: u64 = 2_000;

/// Exit code after a timeout (as coreutils `timeout` uses).
pub const EXIT_TIMEOUT: i32 = 124;

/// Exit code for invalid arguments.
pub const EXIT_USAGE: i32 = 2;

/// Exit code when the command could not be started.
pub const EXIT_SPAWN: i32 = 126;

/// The settings of one run.
pub struct Cli {
    /// The build command.
    pub command: String,
    /// The directory to run it in.
    pub cwd: Option<String>,
    /// The longest wait, in milliseconds.
    pub max_wait_ms: u64,
    /// The interval between looks at the output, in milliseconds.
    pub poll_interval_ms: u64,
    /// Whether the output is classified (otherwise only its tail is shown).
    pub classify: bool,
    /// Whether the output is written to a log file.
    pub log_enabled: bool,
    /// The directory of the log file (the default one when `None`).
    pub log_dir: Option<String>,
}

/// What the arguments ask for.
pub enum Parsed {
    Run(Cli),
    Help,
    Version,
}

/// The settings of one run, as values.
pub ghost struct CliModel {
    pub command: Seq<char>,
    pub cwd: Option<Seq<char>>,
    pub max_wait_ms: u64,
    pub poll_interval_ms: u64,
    pub classify: bool,
    pub log_enabled: bool,
    pub log_dir: Option<Seq<char>>,
}

/// What the arguments ask for, as values.
pub ghost enum ParsedModel {
    Run(CliModel),
    Help,
    Version,
}

/// The view of an optional string.
pub open spec fn opt_string(o: Option<String>) -> Option<Seq<char>> {
    match o {
        Some(s) => Some(s@),
        None => None,
    }
}

impl View for Cli {
    type V = CliModel;

    open spec fn view(&self) -> CliModel {
        CliModel {
            command: self.command@,
            cwd: opt_string(self.cwd),
            max_wait_ms: self.max_wait_ms,
            poll_interval_ms: self.poll_interval_ms,
            classify: self.classify,
            log_enabled: self.log_enabled,
            log_dir: opt_string(self.log_dir),
        }
    }
}

impl View for Parsed {
    type V = ParsedModel;

    open spec fn view(&self) -> ParsedModel {
        match self {
            Parsed::Run(cli) => ParsedModel::Run(cli@),
            Parsed::Help => ParsedModel::Help,
            Parsed::Version => ParsedModel::Version,
        }
    }
}

/// The settings gathered while reading the arguments.
pub ghost struct ParseState {
    pub cwd: Option<Seq<char>>,
    pub max_wait_ms: u64,
    pub poll_interval_ms: u64,
    pub classify: bool,
    pub log_enabled: bool,
    pub log_dir: Option<Seq<char>>,
    pub parts: Seq<Seq<char>>,
}

/// The settings before any argument: the defaults, no command.
pub open spec fn initial_state() -> ParseState {
    ParseState {
        cwd: None,
        max_wait_ms: DEFAULT_MAX_WAIT_MS,
        poll_interval_ms: DEFAULT_POLL_INTERVAL_MS,
        classify: true,
        log_enabled: true,
        log_dir: None,
        parts: Seq::empty(),
    }
}

/// The result once every argument has been read: the command parts joined
/// with spaces, or an error when there is no command.
pub open spec fn finish_state(st: ParseState) -> Result<ParsedModel, Seq<char>> {
    if st.parts.len() == 0 {
        Err("missing command"@)
    } else {
        Ok(
            ParsedModel::Run(
                CliModel {
                    command: join_with(st.parts, seq![' ']),
                    cwd: st.cwd,
                    max_wait_ms: st.max_wait_ms,
                    poll_interval_ms: st.poll_interval_ms,
                    classify: st.classify,
                    log_enabled: st.log_enabled,
                    log_dir: st.log_dir,
                },
            ),
        )
    }
}

/// Where the first `=` of `arg` is.
pub open spec fn first_eq(arg: Seq<char>, k: int) -> bool {
    0 <= k < arg.len() && arg[k] == '=' && forall|j: int| 0 <= j < k ==> #[trigger] arg[j] != '='
}

/// Whether `s` starts with `p`.
pub open spec fn starts_with(s: Seq<char>, p: Seq<char>) -> bool {
    p.len() <= s.len() && s.take(p.len() as int) == p
}

/// An argument split into its option name and its inline value: at the first
/// `=` when what comes before it starts with `--` (`--opt=value`), otherwise
/// the whole argument and no value.
pub open spec fn split_flag(arg: Seq<char>) -> (Seq<char>, Option<Seq<char>>) {
    if exists|k: int| first_eq(arg, k) {
        let k = choose|k: int| first_eq(arg, k);
        if starts_with(arg.take(k), "--"@) {
            (arg.take(k), Some(arg.skip(k + 1)))
        } else {
            (arg, None)
        }
    } else {
        (arg, None)
    }
}

/// The message for an option without its value.
pub open spec fn missing_value_message(option_name: Seq<char>) -> Seq<char> {
    "option "@ + option_name + " requires a value"@
}

/// The message for a value that is not a number of milliseconds.
pub open spec fn bad_ms_message(option_name: Seq<char>, raw: Seq<char>) -> Seq<char> {
    "option "@ + option_name + " expects a non-negative integer, got '"@ + raw + "'"@
}

/// The value of an option: its inline value, else the next argument. With
/// the value comes the rest of the arguments after it.
pub open spec fn option_value(rest: Seq<Seq<char>>, inline: Option<Seq<char>>, option_name: Seq<char>) -> Result<
    (Seq<char>, Seq<Seq<char>>),
    Seq<char>,
> {
    match inline {
        Some(v) => Ok((v, rest.drop_first())),
        None => if rest.len() > 1 {
            Ok((rest[1], rest.skip(2)))
        } else {
            Err(missing_value_message(option_name))
        },
    }
}

/// A number of milliseconds, or the error message for `option_name`.
pub open spec fn ms_value(raw: Seq<char>, option_name: Seq<char>) -> Result<u64, Seq<char>> {
    match parse_u64_spec(raw) {
        Some(n) => Ok(n),
        None => Err(bad_ms_message(option_name, raw)),
    }
}

/// Reading the arguments `rest` with the settings `st` gathered so far.
pub open spec fn parse_rest(rest: Seq<Seq<char>>, st: ParseState) -> Result<ParsedModel, Seq<char>>
    decreases rest.len(),
{
    if rest.len() == 0 {
        finish_state(st)
    } else {
        let arg = rest[0];
        if arg == "--"@ {
            finish_state(ParseState { parts: st.parts + rest.drop_first(), ..st })
        } else {
            let (flag, inline) = split_flag(arg);
            if flag == "-h"@ || flag == "--help"@ {
                Ok(ParsedModel::Help)
            } else if flag == "-V"@ || flag == "--version"@ {
                Ok(ParsedModel::Version)
            } else if flag == "--no-classify"@ {
                parse_rest(rest.drop_first(), ParseState { classify: false, ..st })
            } else if flag == "--no-log-file"@ {
                parse_rest(rest.drop_first(), ParseState { log_enabled: false, ..st })
            } else if flag == "-L"@ || flag == "--log-file"@ {
                match option_value(rest, inline, "--log-file"@) {
                    Ok((v, more)) => parse_rest(more, ParseState { log_dir: Some(v), ..st }),
                    Err(e) => Err(e),
                }
            } else if flag == "-C"@ || flag == "--cwd"@ {
                match option_value(rest, inline, "--cwd"@) {
                    Ok((v, more)) => parse_rest(more, ParseState { cwd: Some(v), ..st }),
                    Err(e) => Err(e),
                }
            } else if flag == "-m"@ || flag == "--max-wait"@ {
                match option_value(rest, inline, "--max-wait"@) {
                    Ok((v, more)) => match ms_value(v, "--max-wait"@) {
                        Ok(n) => parse_rest(more, ParseState { max_wait_ms: n, ..st }),
                        Err(e) => Err(e),
                    },
                    Err(e) => Err(e),
                }
            } else if flag == "-p"@ || flag == "--poll-interval"@ {
                match option_value(rest, inline, "--poll-interval"@) {
                    Ok((v, more)) => match ms_value(v, "--poll-interval"@) {
                        Ok(n) => parse_rest(more, ParseState { poll_interval_ms: n, ..st }),
                        Err(e) => Err(e),
                    },
                    Err(e) => Err(e),
                }
            } else if flag.len() > 1 && flag[0] == '-' {
                Err("unknown option: "@ + flag)
            } else {
                parse_rest(rest.drop_first(), ParseState { parts: st.parts.push(arg), ..st })
            }
        }
    }
}

/// The long options that take a value.
pub open spec fn is_long_value_option(name: Seq<char>) -> bool {
    name == "--cwd"@ || name == "--log-file"@ || name == "--max-wait"@ || name == "--poll-interval"@
}

/// A long option's value may follow it as the next argument or be attached
/// with `=`: `--opt value` and `--opt=value` read the same, whatever the
/// value and whatever comes after.
pub proof fn lemma_inline_value_same(
    name: Seq<char>,
    value: Seq<char>,
    rest: Seq<Seq<char>>,
    st: ParseState,
)
    requires
        is_long_value_option(name),
    ensures
        parse_rest(seq![name, value] + rest, st) == parse_rest(
            seq![name + "="@ + value] + rest,
            st,
        ),
{
    reveal_strlit("--cwd");
    reveal_strlit("--log-file");
    reveal_strlit("--max-wait");
    reveal_strlit("--poll-interval");
    reveal_strlit("--");
    reveal_strlit("=");
    reveal_strlit("-h");
    reveal_strlit("--help");
    reveal_strlit("-V");
    reveal_strlit("--version");
    reveal_strlit("--no-classify");
    reveal_strlit("--no-log-file");
    reveal_strlit("-L");
    reveal_strlit("-C");
    reveal_strlit("-m");
    reveal_strlit("-p");
    let a = seq![name, value] + rest;
    let joined = name + "="@ + value;
    let b = seq![joined] + rest;
    assert(a[0] == name);
    assert(b[0] == joined);
    assert(name.len() >= 5);
    assert(name[0] == '-' && name[1] == '-');
    assert(forall|j: int| 0 <= j < name.len() ==> #[trigger] name[j] != '=');
    // The bare option name has no `=`.
    assert forall|k: int| !first_eq(name, k) by {
        if first_eq(name, k) {
            assert(name[k] != '=');
        }
    }
    assert(split_flag(name) == (name, None::<Seq<char>>));
    // With the value attached, the name ends at the first `=`.
    let k = name.len() as int;
    assert(joined[k] == '=');
    assert forall|j: int| 0 <= j < k implies #[trigger] joined[j] != '=' by {
        assert(joined[j] == name[j]);
    }
    assert(first_eq(joined, k));
    let c = choose|c: int| first_eq(joined, c);
    if c < k {
        assert(joined[c] != '=');
    }
    if k < c {
        assert(joined[k] != '=');
    }
    assert(joined.take(k) =~= name);
    assert(name.take(2) =~= "--"@);
    assert(joined.skip(k + 1) =~= value);
    assert(split_flag(joined) == (name, Some(value)));
    assert(name != "--"@);
    assert(joined != "--"@);
    assert(a.drop_first()[0] == value);
    assert(a.skip(2) =~= rest);
    assert(b.drop_first() =~= rest);
}

/// An argument without `=` is its own option name, with no inline value.
proof fn lemma_split_flag_plain(arg: Seq<char>)
    requires
        !arg.contains('='),
    ensures
        split_flag(arg) == (arg, None::<Seq<char>>),
{
    assert forall|k: int| !first_eq(arg, k) by {
        if first_eq(arg, k) {
            assert(arg.contains('='));
        }
    }
}

proof fn lemma_option_literals()
    ensures
        !"-p"@.contains('='),
        !"--poll-interval"@.contains('='),
        !"-m"@.contains('='),
        !"--max-wait"@.contains('='),
        !"-C"@.contains('='),
        !"--cwd"@.contains('='),
        !"-L"@.contains('='),
        !"--log-file"@.contains('='),
        !"--no-classify"@.contains('='),
        !"--no-log-file"@.contains('='),
        "-p"@.len() == 2 && "-m"@.len() == 2 && "-C"@.len() == 2 && "-L"@.len() == 2,
        "-p"@ != "--"@,
        "--poll-interval"@ != "--"@,
        "-m"@ != "--"@,
        "--max-wait"@ != "--"@,
        "-C"@ != "--"@,
        "--cwd"@ != "--"@,
        "-L"@ != "--"@,
        "--log-file"@ != "--"@,
        "--no-classify"@ != "--"@ && "--no-log-file"@ != "--"@,
        "-p"@ != "-h"@ && "-p"@ != "--help"@ && "-p"@ != "-V"@ && "-p"@ != "--version"@,
        "-p"@ != "--no-classify"@ && "-p"@ != "--no-log-file"@ && "-p"@ != "-L"@ && "-p"@
            != "--log-file"@ && "-p"@ != "-C"@ && "-p"@ != "--cwd"@ && "-p"@ != "-m"@ && "-p"@
            != "--max-wait"@,
        "--poll-interval"@ != "-h"@ && "--poll-interval"@ != "--help"@ && "--poll-interval"@
            != "-V"@ && "--poll-interval"@ != "--version"@,
        "--poll-interval"@ != "--no-classify"@ && "--poll-interval"@ != "--no-log-file"@
            && "--poll-interval"@ != "-L"@ && "--poll-interval"@ != "--log-file"@
            && "--poll-interval"@ != "-C"@ && "--poll-interval"@ != "--cwd"@ && "--poll-interval"@
            != "-m"@ && "--poll-interval"@ != "--max-wait"@,
        "-m"@ != "-h"@ && "-m"@ != "--help"@ && "-m"@ != "-V"@ && "-m"@ != "--version"@,
        "-m"@ != "--no-classify"@ && "-m"@ != "--no-log-file"@ && "-m"@ != "-L"@ && "-m"@
            != "--log-file"@ && "-m"@ != "-C"@ && "-m"@ != "--cwd"@,
        "--max-wait"@ != "-h"@ && "--max-wait"@ != "--help"@ && "--max-wait"@ != "-V"@
            && "--max-wait"@ != "--version"@,
        "--max-wait"@ != "--no-classify"@ && "--max-wait"@ != "--no-log-file"@ && "--max-wait"@
            != "-L"@ && "--max-wait"@ != "--log-file"@ && "--max-wait"@ != "-C"@ && "--max-wait"@
            != "--cwd"@,
        "-C"@ != "-h"@ && "-C"@ != "--help"@ && "-C"@ != "-V"@ && "-C"@ != "--version"@,
        "-C"@ != "--no-classify"@ && "-C"@ != "--no-log-file"@ && "-C"@ != "-L"@ && "-C"@
            != "--log-file"@,
        "--cwd"@ != "-h"@ && "--cwd"@ != "--help"@ && "--cwd"@ != "-V"@ && "--cwd"@
            != "--version"@,
        "--cwd"@ != "--no-classify"@ && "--cwd"@ != "--no-log-file"@ && "--cwd"@ != "-L"@
            && "--cwd"@ != "--log-file"@,
        "-L"@ != "-h"@ && "-L"@ != "--help"@ && "-L"@ != "-V"@ && "-L"@ != "--version"@,
        "-L"@ != "--no-classify"@ && "-L"@ != "--no-log-file"@,
        "--log-file"@ != "-h"@ && "--log-file"@ != "--help"@ && "--log-file"@ != "-V"@
            && "--log-file"@ != "--version"@,
        "--log-file"@ != "--no-classify"@ && "--log-file"@ != "--no-log-file"@,
        "--no-classify"@ != "-h"@ && "--no-classify"@ != "--help"@ && "--no-classify"@
            != "-V"@ && "--no-classify"@ != "--version"@,
        "--no-log-file"@ != "-h"@ && "--no-log-file"@ != "--help"@ && "--no-log-file"@
            != "-V"@ && "--no-log-file"@ != "--version"@ && "--no-log-file"@ != "--no-classify"@,
{
    reveal_strlit("-p");
    reveal_strlit("--poll-interval");
    reveal_strlit("-m");
    reveal_strlit("--max-wait");
    reveal_strlit("-C");
    reveal_strlit("--cwd");
    reveal_strlit("-L");
    reveal_strlit("--log-file");
    reveal_strlit("--no-classify");
    reveal_strlit("--no-log-file");
    reveal_strlit("--");
    reveal_strlit("-h");
    reveal_strlit("--help");
    reveal_strlit("-V");
    reveal_strlit("--version");
    reveal_strlit("=");
    assert("-p"@[1] != '=');
    assert("-m"@[1] != '=');
    assert("-C"@[1] != '=');
    assert("-L"@[1] != '=');
    assert("-p"@[1] != "-h"@[1]);
    assert("-p"@[1] != "--"@[1]);
    assert("--"@.len() == 2 && "-h"@.len() == 2 && "-V"@.len() == 2);
    assert("--cwd"@.len() == 5 && "--help"@.len() == 6 && "--version"@.len() == 9);
    assert("--max-wait"@.len() == 10 && "--log-file"@.len() == 10);
    assert("--no-classify"@.len() == 13 && "--no-log-file"@.len() == 13);
    assert("--poll-interval"@.len() == 15);
    assert("--max-wait"@[2] != "--log-file"@[2]);
    assert("--no-classify"@[5] != "--no-log-file"@[5]);
    assert("-m"@[1] != "-h"@[1] && "-C"@[1] != "-h"@[1] && "-L"@[1] != "-h"@[1]);
    assert("-p"@[1] != "-V"@[1] && "-m"@[1] != "-V"@[1] && "-C"@[1] != "-V"@[1] && "-L"@[1] != "-V"@[1]);
    assert("-p"@[1] != "-m"@[1] && "-p"@[1] != "-C"@[1] && "-p"@[1] != "-L"@[1]);
    assert("-m"@[1] != "-C"@[1] && "-m"@[1] != "-L"@[1] && "-C"@[1] != "-L"@[1]);
    assert("-m"@[1] != "--"@[1]);
    assert("-C"@[1] != "--"@[1]);
    assert("-L"@[1] != "--"@[1]);
}

/// Each option that takes a value sets its own setting, and only that, and
/// its short and long forms read the same: `-p`/`--poll-interval` the poll
/// interval, `-m`/`--max-wait` the longest wait (both read as a number of
/// milliseconds, an error naming the long form otherwise), `-C`/`--cwd` the
/// working directory and `-L`/`--log-file` the log directory; reading then
/// goes on with the arguments after the value.
pub proof fn lemma_value_options(v: Seq<char>, rest: Seq<Seq<char>>, st: ParseState)
    ensures
        parse_rest(seq!["-p"@, v] + rest, st) == parse_rest(seq!["--poll-interval"@, v] + rest, st),
        parse_rest(seq!["--poll-interval"@, v] + rest, st) == match parse_u64_spec(v) {
            Some(n) => parse_rest(rest, ParseState { poll_interval_ms: n, ..st }),
            None => Err(bad_ms_message("--poll-interval"@, v)),
        },
        parse_rest(seq!["-m"@, v] + rest, st) == parse_rest(seq!["--max-wait"@, v] + rest, st),
        parse_rest(seq!["--max-wait"@, v] + rest, st) == match parse_u64_spec(v) {
            Some(n) => parse_rest(rest, ParseState { max_wait_ms: n, ..st }),
            None => Err(bad_ms_message("--max-wait"@, v)),
        },
        parse_rest(seq!["-C"@, v] + rest, st) == parse_rest(seq!["--cwd"@, v] + rest, st),
        parse_rest(seq!["--cwd"@, v] + rest, st) == parse_rest(
            rest,
            ParseState { cwd: Some(v), ..st },
        ),
        parse_rest(seq!["-L"@, v] + rest, st) == parse_rest(seq!["--log-file"@, v] + rest, st),
        parse_rest(seq!["--log-file"@, v] + rest, st) == parse_rest(
            rest,
            ParseState { log_dir: Some(v), ..st },
        ),
{
    lemma_option_literals();
    let names = seq![
        "-p"@,
        "--poll-interval"@,
        "-m"@,
        "--max-wait"@,
        "-C"@,
        "--cwd"@,
        "-L"@,
        "--log-file"@,
    ];
    assert forall|i: int| 0 <= i < names.len() implies {
        let a = seq![#[trigger] names[i], v] + rest;
        &&& a[0] == names[i]
        &&& a.drop_first()[0] == v
        &&& a.skip(2) == rest
        &&& split_flag(names[i]) == (names[i], None::<Seq<char>>)
    } by {
        let a = seq![names[i], v] + rest;
        assert(a.skip(2) =~= rest);
        lemma_split_flag_plain(names[i]);
    }
    assert(names[0] == "-p"@);
    assert(names[1] == "--poll-interval"@);
    assert(names[2] == "-m"@);
    assert(names[3] == "--max-wait"@);
    assert(names[4] == "-C"@);
    assert(names[5] == "--cwd"@);
    assert(names[6] == "-L"@);
    assert(names[7] == "--log-file"@);
}

/// The switches set their own setting and reading goes on with the next
/// argument: `--no-classify` turns classification off, `--no-log-file` the
/// log file.
pub proof fn lemma_switches(rest: Seq<Seq<char>>, st: ParseState)
    ensures
        parse_rest(seq!["--no-classify"@] + rest, st) == parse_rest(
            rest,
            ParseState { classify: false, ..st },
        ),
        parse_rest(seq!["--no-log-file"@] + rest, st) == parse_rest(
            rest,
            ParseState { log_enabled: false, ..st },
        ),
{
    lemma_option_literals();
    lemma_split_flag_plain("--no-classify"@);
    lemma_split_flag_plain("--no-log-file"@);
    assert((seq!["--no-classify"@] + rest).drop_first() =~= rest);
    assert((seq!["--no-log-file"@] + rest).drop_first() =~= rest);
    assert((seq!["--no-classify"@] + rest)[0] == "--no-classify"@);
    assert((seq!["--no-log-file"@] + rest)[0] == "--no-log-file"@);
}

/// Whether `a` and `b` hold the same characters.
fn same_chars(a: &[char], b: &[char]) -> (r: bool)
    ensures
        r == (a@ == b@),
{
    if a.len() != b.len() {
        return false;
    }
    let mut i: usize = 0;
    while i < a.len()
        invariant
            i <= a@.len(),
            a@.len() == b@.len(),
            forall|j: int| 0 <= j < i ==> a@[j] == b@[j],
        decreases a.len() - i,
    {
        if a[i] != b[i] {
            return false;
        }
        i = i + 1;
    }
    assert(a@ =~= b@);
    true
}

/// Whether `a` is the text `lit`.
fn is_text(a: &[char], lit: &str) -> (r: bool)
    ensures
        r == (a@ == lit@),
{
    let l = chars_of(lit);
    same_chars(a, l.as_slice())
}

fn copy_range(v: &[char], from: usize, to: usize) -> (r: Vec<char>)
    requires
        from <= to <= v@.len(),
    ensures
        r@ == v@.subrange(from as int, to as int),
{
    let mut r: Vec<char> = Vec::new();
    let mut k = from;
    while k < to
        invariant
            from <= k <= to <= v@.len(),
            r@ == v@.subrange(from as int, k as int),
        decreases to - k,
    {
        r.push(v[k]);
        assert(v@.subrange(from as int, k + 1) =~= v@.subrange(from as int, k as int).push(v@[k as int]));
        k = k + 1;
    }
    r
}

/// Splits an argument into option name and inline value (see [`split_flag`]).
fn split_flag_chars(arg: &[char]) -> (r: (Vec<char>, Option<Vec<char>>))
    ensures
        ({
            let (flag, inline) = split_flag(arg@);
            &&& r.0@ == flag
            &&& match r.1 {
                Some(v) => inline == Some(v@),
                None => inline is None,
            }
        }),
{
    let mut k: usize = 0;
    while k < arg.len() && arg[k] != '='
        invariant
            k <= arg@.len(),
            forall|j: int| 0 <= j < k ==> #[trigger] arg@[j] != '=',
        decreases arg.len() - k,
    {
        k = k + 1;
    }
    if k == arg.len() {
        assert forall|k2: int| !first_eq(arg@, k2) by {
            if first_eq(arg@, k2) {
                assert(arg@[k2] != '=');
            }
        }
        return (copy_range(arg, 0, arg.len()), None);
    }
    proof {
        assert(first_eq(arg@, k as int));
        let c = choose|c: int| first_eq(arg@, c);
        if c < k {
            assert(arg@[c] != '=');
        }
        if k < c {
            assert(arg@[k as int] != '=');
        }
    }
    let name = copy_range(arg, 0, k);
    assert(name@ =~= arg@.take(k as int));
    let starts = k >= 2 && arg[0] == '-' && arg[1] == '-';
    proof {
        reveal_strlit("--");
        if k >= 2 {
            assert(name@.take(2) == seq![name@[0], name@[1]]);
            if starts {
                assert(name@.take(2) =~= "--"@);
            }
        }
    }
    if starts {
        let value = copy_range(arg, k + 1, arg.len());
        assert(value@ =~= arg@.skip(k + 1));
        (name, Some(value))
    } else {
        proof {
            if k >= 2 && starts_with(name@, "--"@) {
                assert(name@.take(2)[0] == name@[0]);
                assert(name@.take(2)[1] == name@[1]);
            }
        }
        (copy_range(arg, 0, arg.len()), None)
    }
}

/// Takes the value of option `option_name`: the inline value when there is
/// one, otherwise the argument at `pos` (then `pos` moves past it); an error
/// message when there is neither.
pub fn take_value(args: &Vec<String>, pos: &mut usize, inline_value: Option<&str>, option_name: &str) -> (r: Result<String, String>)
    requires
        *old(pos) <= args@.len(),
    ensures
        match inline_value {
            Some(v) => r matches Ok(s) && s@ == v@ && *final(pos) == *old(pos),
            None => if *old(pos) < args@.len() {
                r matches Ok(s) && s@ == args@[*old(pos) as int]@ && *final(pos) == *old(pos) + 1
            } else {
                r matches Err(e) && e@ == missing_value_message(option_name@) && *final(pos) == *old(pos)
            },
        },
{
    match inline_value {
        Some(v) => Ok(String::from_str(v)),
        None => {
            if *pos < args.len() {
                let value = args[*pos].clone();
                *pos = *pos + 1;
                Ok(value)
            } else {
                let mut message = String::from_str("option ");
                push_str(&mut message, option_name);
                push_str(&mut message, " requires a value");
                Err(message)
            }
        },
    }
}

/// Reads a number of milliseconds given for `option_name`; an error message
/// when `raw_value` is not a non-negative integer that fits in 64 bits.
pub fn parse_ms(raw_value: String, option_name: &str) -> (r: Result<u64, String>)
    ensures
        match ms_value(raw_value@, option_name@) {
            Ok(n) => r == Ok::<u64, String>(n),
            Err(m) => r matches Err(e) && e@ == m,
        },
{
    let chars = chars_of(raw_value.as_str());
    match parse_u64_chars(chars.as_slice()) {
        Some(n) => Ok(n),
        None => {
            let mut message = String::from_str("option ");
            push_str(&mut message, option_name);
            push_str(&mut message, " expects a non-negative integer, got '");
            push_str(&mut message, raw_value.as_str());
            push_str(&mut message, "'");
            Err(message)
        },
    }
}

/// The settings held in the loop of [`parse_args`], as values.
spec fn model_state(
    cwd: Option<String>,
    max_wait_ms: u64,
    poll_interval_ms: u64,
    classify: bool,
    log_enabled: bool,
    log_dir: Option<String>,
    parts: Seq<String>,
) -> ParseState {
    ParseState {
        cwd: opt_string(cwd),
        max_wait_ms,
        poll_interval_ms,
        classify,
        log_enabled,
        log_dir: opt_string(log_dir),
        parts: views(parts),
    }
}

fn finish_args(
    cwd: Option<String>,
    max_wait_ms: u64,
    poll_interval_ms: u64,
    classify: bool,
    log_enabled: bool,
    log_dir: Option<String>,
    parts: Vec<String>,
) -> (r: Result<Parsed, String>)
    ensures
        match finish_state(
            model_state(cwd, max_wait_ms, poll_interval_ms, classify, log_enabled, log_dir, parts@),
        ) {
            Ok(m) => r matches Ok(p) && p@ == m,
            Err(m) => r matches Err(e) && e@ == m,
        },
{
    if parts.len() == 0 {
        return Err(String::from_str("missing command"));
    }
    let mut command = String::new();
    push_joined(&mut command, parts.as_slice(), 0, parts.len(), ' ');
    assert(views(parts@).subrange(0, parts@.len() as int) =~= views(parts@));
    Ok(
        Parsed::Run(
            Cli { command, cwd, max_wait_ms, poll_interval_ms, classify, log_enabled, log_dir },
        ),
    )
}

fn as_opt_str(o: &Option<String>) -> (r: Option<&str>)
    ensures
        match r {
            Some(s) => o matches Some(t) && s@ == t@,
            None => o is None,
        },
{
    match o {
        Some(s) => Some(s.as_str()),
        None => None,
    }
}

/// Reads the command-line arguments (without the program name): options
/// (`-C/--cwd`, `-m/--max-wait`, `-p/--poll-interval`, `--no-classify`,
/// `-L/--log-file`, `--no-log-file`, `-h/--help`, `-V/--version`, also as
/// `--opt=value`), then the command, whose parts are joined with spaces;
/// everything after `--` is part of the command.
pub fn parse_args(argv: Vec<String>) -> (r: Result<Parsed, String>)
    ensures
        match parse_rest(views(argv@), initial_state()) {
            Ok(m) => r matches Ok(p) && p@ == m,
            Err(m) => r matches Err(e) && e@ == m,
        },
{
    let ghost args = views(argv@);
    let mut cwd: Option<String> = None;
    let mut max_wait_ms: u64 = DEFAULT_MAX_WAIT_MS;
    let mut poll_interval_ms: u64 = DEFAULT_POLL_INTERVAL_MS;
    let mut classify = true;
    let mut log_enabled = true;
    let mut log_dir: Option<String> = None;
    let mut parts: Vec<String> = Vec::new();
    let mut pos: usize = 0;
    assert(args.skip(0) =~= args);
    assert(views(parts@) =~= Seq::<Seq<char>>::empty());
    while pos < argv.len()
        invariant
            pos <= argv@.len(),
            args == views(argv@),
            parse_rest(
                args.skip(pos as int),
                model_state(cwd, max_wait_ms, poll_interval_ms, classify, log_enabled, log_dir, parts@),
            ) == parse_rest(args, initial_state()),
        decreases argv.len() - pos,
    {
        let ghost rest = args.skip(pos as int);
        let ghost st = model_state(
            cwd,
            max_wait_ms,
            poll_interval_ms,
            classify,
            log_enabled,
            log_dir,
            parts@,
        );
        let arg_chars = chars_of(argv[pos].as_str());
        assert(rest[0] == arg_chars@);
        assert(rest.drop_first() =~= args.skip(pos + 1));
        if is_text(arg_chars.as_slice(), "--") {
            let ghost before = parts@;
            let mut k = pos + 1;
            while k < argv.len()
                invariant
                    pos < k <= argv@.len(),
                    args == views(argv@),
                    views(parts@) == views(before) + args.subrange(pos + 1, k as int),
                decreases argv.len() - k,
            {
                let ghost prev = parts@;
                parts.push(argv[k].clone());
                assert(views(parts@) =~= views(prev).push(argv@[k as int]@));
                assert(args.subrange(pos + 1, k + 1) =~= args.subrange(pos + 1, k as int).push(
                    args[k as int],
                ));
                k = k + 1;
            }
            assert(args.subrange(pos + 1, argv@.len() as int) =~= rest.drop_first());
            return finish_args(
                cwd,
                max_wait_ms,
                poll_interval_ms,
                classify,
                log_enabled,
                log_dir,
                parts,
            );
        }
        let (flag_chars, inline_chars) = split_flag_chars(arg_chars.as_slice());
        let flag = flag_chars.as_slice();
        let inline_string: Option<String> = match &inline_chars {
            Some(v) => Some(crate::text::string_of(v.as_slice())),
            None => None,
        };
        let inline = as_opt_str(&inline_string);
        if is_text(flag, "-h") || is_text(flag, "--help") {
            return Ok(Parsed::Help);
        }
        if is_text(flag, "-V") || is_text(flag, "--version") {
            return Ok(Parsed::Version);
        }
        pos = pos + 1;
        if is_text(flag, "--no-classify") {
            classify = false;
        } else if is_text(flag, "--no-log-file") {
            log_enabled = false;
        } else if is_text(flag, "-L") || is_text(flag, "--log-file") {
            if pos < argv.len() {
                assert(rest.skip(2) =~= args.skip(pos + 1));
                assert(rest[1] == args[pos as int]);
            }
            match take_value(&argv, &mut pos, inline, "--log-file") {
                Ok(v) => {
                    log_dir = Some(v);
                },
                Err(e) => {
                    return Err(e);
                },
            }
        } else if is_text(flag, "-C") || is_text(flag, "--cwd") {
            if pos < argv.len() {
                assert(rest.skip(2) =~= args.skip(pos + 1));
                assert(rest[1] == args[pos as int]);
            }
            match take_value(&argv, &mut pos, inline, "--cwd") {
                Ok(v) => {
                    cwd = Some(v);
                },
                Err(e) => {
                    return Err(e);
                },
            }
        } else if is_text(flag, "-m") || is_text(flag, "--max-wait") {
            if pos < argv.len() {
                assert(rest.skip(2) =~= args.skip(pos + 1));
                assert(rest[1] == args[pos as int]);
            }
            match take_value(&argv, &mut pos, inline, "--max-wait") {
                Ok(v) => match parse_ms(v, "--max-wait") {
                    Ok(n) => {
                        max_wait_ms = n;
                    },
                    Err(e) => {
                        return Err(e);
                    },
                },
                Err(e) => {
                    return Err(e);
                },
            }
        } else if is_text(flag, "-p") || is_text(flag, "--poll-interval") {
            if pos < argv.len() {
                assert(rest.skip(2) =~= args.skip(pos + 1));
                assert(rest[1] == args[pos as int]);
            }
            match take_value(&argv, &mut pos, inline, "--poll-interval") {
                Ok(v) => match parse_ms(v, "--poll-interval") {
                    Ok(n) => {
                        poll_interval_ms = n;
                    },
                    Err(e) => {
                        return Err(e);
                    },
                },
                Err(e) => {
                    return Err(e);
                },
            }
        } else if flag.len() > 1 && flag[0] == '-' {
            let mut message = String::from_str("unknown option: ");
            push_range(&mut message, flag, 0, flag.len());
            assert(flag@.subrange(0, flag@.len() as int) =~= flag@);
            return Err(message);
        } else {
            let ghost prev = parts@;
            parts.push(argv[pos - 1].clone());
            assert(views(parts@) =~= views(prev).push(rest[0]));
        }
    }
    assert(args.skip(pos as int) =~= Seq::<Seq<char>>::empty());
    finish_args(cwd, max_wait_ms, poll_interval_ms, classify, log_enabled, log_dir, parts)
}

/// The first line of the report after a timeout.
pub open spec fn timeout_header(max_wait_ms: u64) -> Seq<char> {
    "Build timed out after "@ + decimal(max_wait_ms as nat) + "ms."@
}

/// The report printed after a run. `exit_code` is `None` after a timeout;
/// the output is cleaned by [`sanitize`] first. Classified: the structured
/// result (with the exit code `-1` after a timeout, then preceded by the
/// timeout line and the partial counts). Not classified: the status line
/// and the last [`TAIL_LINES`] lines of the output.
pub open spec fn report_text(
    exit_code: Option<i32>,
    max_wait_ms: u64,
    classify: bool,
    raw_output: Seq<char>,
) -> Seq<char> {
    let output = sanitized(raw_output);
    let resolved: int = match exit_code {
        Some(c) => c as int,
        None => -1,
    };
    let header = match exit_code {
        Some(c) => status_line(c as int),
        None => timeout_header(max_wait_ms),
    };
    if classify {
        let c = collected(split_on(output, '\n'));
        let formatted = join_with(result_lines(c.0, c.1, c.2, resolved), seq!['\n']);
        if exit_code is None {
            header + "\nPartial: "@ + decimal(c.0.len()) + " error(s), "@ + decimal(c.1.len())
                + " warning(s).\n\n"@ + formatted
        } else {
            formatted
        }
    } else {
        let tail = tail_lines_spec(output, TAIL_LINES as nat);
        if exit_code is None {
            header + "\n\nPartial output:\n"@ + tail
        } else {
            header + "\n\n"@ + tail
        }
    }
}

/// The report reads the output only once cleaned: two outputs that clean to
/// the same text give the same report, classified or not. So escape codes
/// and carriage returns that cleaning removes never decide what is printed.
pub proof fn lemma_report_uses_cleaned_output(
    exit_code: Option<i32>,
    max_wait_ms: u64,
    classify: bool,
    a: Seq<char>,
    b: Seq<char>,
)
    requires
        sanitized(a) == sanitized(b),
    ensures
        report_text(exit_code, max_wait_ms, classify, a) == report_text(
            exit_code,
            max_wait_ms,
            classify,
            b,
        ),
{
}

/// Builds the report printed after a run (see [`report_text`]).
pub fn render_report(exit_code: Option<i32>, max_wait_ms: u64, classify: bool, raw_output: &str) -> (r:
    String)
    requires
        raw_output@.len() < usize::MAX,
    ensures
        r@ == report_text(exit_code, max_wait_ms, classify, raw_output@),
{
    let output = sanitize(raw_output);
    let resolved: i32 = match exit_code {
        Some(c) => c,
        None => -1,
    };
    let mut header = String::new();
    match exit_code {
        Some(c) => {
            if c == 0 {
                push_str(&mut header, "BUILD SUCCESS");
            } else {
                push_str(&mut header, "BUILD FAILED");
            }
            push_str(&mut header, " (exit code: ");
            crate::text::push_signed(&mut header, c as i64);
            push_str(&mut header, ")");
        },
        None => {
            push_str(&mut header, "Build timed out after ");
            push_decimal(&mut header, max_wait_ms);
            push_str(&mut header, "ms.");
        },
    }
    if classify {
        proof {
            lemma_non_blank_lines_bound(output@);
        }
        let mut collector = BuildCollector::default();
        collect_output(&mut collector, output.as_str());
        let formatted = format_build_result(&collector, resolved);
        match exit_code {
            None => {
                let mut r = header;
                push_str(&mut r, "\nPartial: ");
                push_decimal(&mut r, collector.errors.len() as u64);
                push_str(&mut r, " error(s), ");
                push_decimal(&mut r, collector.warnings.len() as u64);
                push_str(&mut r, " warning(s).\n\n");
                push_str(&mut r, formatted.as_str());
                proof {
                    assert(views(collector.errors@).len() == collector.errors@.len());
                    assert(views(collector.warnings@).len() == collector.warnings@.len());
                }
                r
            },
            Some(_) => formatted,
        }
    } else {
        let tail = tail_lines(output.as_str(), TAIL_LINES);
        let mut r = header;
        match exit_code {
            None => {
                push_str(&mut r, "\n\nPartial output:\n");
            },
            Some(_) => {
                push_str(&mut r, "\n\n");
            },
        }
        push_str(&mut r, tail.as_str());
        r
    }
}

/// The directory the log file goes to: the one given with `--log-file`;
/// otherwise `log` inside the working directory given with `--cwd`, next to
/// the project; otherwise `log` in the current directory.
pub open spec fn log_dir_spec(log_dir: Option<Seq<char>>, cwd: Option<Seq<char>>) -> Seq<char> {
    match log_dir {
        Some(d) => d,
        None => match cwd {
            Some(c) => if c.len() == 0 {
                "log"@
            } else if c.last() == '/' {
                c + "log"@
            } else {
                c + "/log"@
            },
            None => "log"@,
        },
    }
}

/// Chooses the directory of the log file (see [`log_dir_spec`]).
pub fn resolve_log_dir(log_dir: Option<&str>, cwd: Option<&str>) -> (r: String)
    ensures
        r@ == log_dir_spec(opt_view(log_dir), opt_view(cwd)),
{
    match log_dir {
        Some(d) => String::from_str(d),
        None => match cwd {
            Some(c) => {
                let chars = chars_of(c);
                if chars.len() == 0 {
                    String::from_str("log")
                } else {
                    let mut r = String::from_str(c);
                    if chars[chars.len() - 1] == '/' {
                        push_str(&mut r, "log");
                    } else {
                        push_str(&mut r, "/log");
                    }
                    r
                }
            },
            None => String::from_str("log"),
        },
    }
}

/// The exit code of the program: the build's exit code clamped to
/// `0..=255`, or [`EXIT_TIMEOUT`] after a timeout.
pub fn exit_status(exit_code: Option<i32>) -> (r: i32)
    ensures
        r == match exit_code {
            None => EXIT_TIMEOUT,
            Some(c) => if c < 0 {
                0
            } else if c > 255 {
                255
            } else {
                c
            },
        },
{
    match exit_code {
        None => EXIT_TIMEOUT,
        Some(c) => if c < 0 {
            0
        } else if c > 255 {
            255
        } else {
            c
        },
    }
}

} // verus!

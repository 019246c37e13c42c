//! The decisions of a build run. The program runs the command, sleeps and
//! reads its output; a [`BuildSession`] takes each piece of output and
//! decides what goes to the log, whether the completion marker has arrived,
//! and which exit code the run ends with.

use vstd::prelude::*;

use crate::command::BUILD_MARKER;
use crate::pattern::{
    compile, escape, first_captures, is_regex_meta, regex_compiles, regex_escaped,
    regex_first_captures, CompiledRegex,
};
use crate::text::{
    chars_of, contains_seq, decimal, digit_char, digit_value, digits_value, find_in_range,
    is_ascii_digit, is_digit_run, is_first_occurrence, lemma_first_occurrence_exists,
    lemma_occurrence_avoids_newline, occurs_at, parse_i32_chars, parse_i32_spec, push_range, push_str, string_of, trim_end_chars, trim_end_spec,
};

verus! {

/// What one build run produced.
#[derive(Debug)]
pub struct BuildOutcome {
    /// The exit code; `None` when the run timed out before the marker came.
    pub exit_code: Option<i32>,
    /// The merged stdout and stderr, without the marker and what follows it.
    pub output: String,
}

/// The pattern of the completion marker line: the escaped marker, `:`, and
/// the exit code's digits as capture group 1.
pub open spec fn marker_pattern() -> Seq<char> {
    regex_escaped(BUILD_MARKER@) + ":(\\d+)"@
}

/// Where `w` first occurs in `s`.
pub open spec fn first_position(s: Seq<char>, w: Seq<char>) -> int {
    choose|p: int| is_first_occurrence(s, w, p)
}

/// Cutting `output` at the marker, given the captures found in it (the
/// whole match and capture group 1): when the group is there and parses as
/// an `i32`, the output is cut where the matched text first occurs, trailing
/// white space is dropped, and the code is returned; otherwise the output
/// stays as it is.
pub open spec fn cut_at_captures(
    output: Seq<char>,
    caps: Option<(Seq<char>, Option<Seq<char>>)>,
) -> (Seq<char>, Option<i32>) {
    match caps {
        Some((whole, Some(group))) => match parse_i32_spec(group) {
            Some(code) => if contains_seq(output, whole) {
                (trim_end_spec(output.take(first_position(output, whole))), Some(code))
            } else {
                (output, None)
            },
            None => (output, None),
        },
        _ => (output, None),
    }
}

/// Matching the marker pattern `pattern` (compiled) in `output` and cutting
/// the output there (see [`cut_at_captures`]).
pub open spec fn marker_cut(pattern: Seq<char>, output: Seq<char>) -> (Seq<char>, Option<i32>) {
    cut_at_captures(output, regex_first_captures(pattern, output))
}

proof fn lemma_trim_end_is_prefix(s: Seq<char>)
    ensures
        trim_end_spec(s).len() <= s.len(),
        trim_end_spec(s) == s.take(trim_end_spec(s).len() as int),
    decreases s.len(),
{
    if s.len() > 0 && crate::text::is_white_space(s.last()) {
        lemma_trim_end_is_prefix(s.drop_last());
        assert(s.drop_last().take(trim_end_spec(s).len() as int) =~= s.take(
            trim_end_spec(s).len() as int,
        ));
    } else {
        assert(s.take(s.len() as int) =~= s);
    }
}

/// Cuts `output` at the marker, given the captures the marker pattern found
/// in it (see [`cut_at_captures`]); returns the exit code when cut.
pub fn cut_at_marker(output: &mut String, caps: Option<(String, Option<String>)>) -> (r: Option<i32>)
    ensures
        (final(output)@, r) == cut_at_captures(old(output)@, caps.deep_view()),
{
    match caps {
        Some((whole, Some(group))) => {
            let group_chars = chars_of(group.as_str());
            match parse_i32_chars(group_chars.as_slice()) {
                Some(code) => {
                    let out_chars = chars_of(output.as_str());
                    let whole_chars = chars_of(whole.as_str());
                    assert(out_chars@.subrange(0, out_chars@.len() as int) =~= out_chars@);
                    match find_in_range(out_chars.as_slice(), 0, out_chars.len(), whole_chars.as_slice()) {
                        Some(q) => {
                            proof {
                                let p = first_position(old(output)@, whole@);
                                assert(is_first_occurrence(old(output)@, whole@, p));
                                if p < q {
                                    assert(!occurs_at(old(output)@, whole@, p));
                                }
                                if q < p {
                                    assert(!occurs_at(old(output)@, whole@, q as int));
                                }
                                assert(occurs_at(old(output)@, whole@, q as int));
                            }
                            let mut head: Vec<char> = Vec::new();
                            let mut k: usize = 0;
                            while k < q
                                invariant
                                    k <= q <= out_chars@.len(),
                                    head@ == out_chars@.take(k as int),
                                decreases q - k,
                            {
                                head.push(out_chars[k]);
                                assert(out_chars@.take(k + 1) =~= out_chars@.take(k as int).push(out_chars@[k as int]));
                                k = k + 1;
                            }
                            let trimmed = trim_end_chars(head.as_slice());
                            *output = string_of(trimmed.as_slice());
                            Some(code)
                        },
                        None => None,
                    }
                },
                None => None,
            }
        },
        _ => None,
    }
}

/// Looks for the completion marker in `output`. When found with a valid exit
/// code, cuts the output where the marker starts, drops trailing white
/// space, and returns the code; otherwise leaves the output unchanged.
pub fn match_marker(marker_regex: &CompiledRegex, output: &mut String) -> (r: Option<i32>)
    ensures
        (final(output)@, r) == marker_cut(marker_regex@, old(output)@),
{
    let caps = first_captures(marker_regex, output.as_str());
    cut_at_marker(output, caps)
}

/// With a valid code, the cut output no longer holds the text that matched.
pub proof fn lemma_cut_drops_match(pattern: Seq<char>, output: Seq<char>)
    ensures
        ({
            let (cut, code) = marker_cut(pattern, output);
            code is Some ==> (regex_first_captures(pattern, output) matches Some((whole, _)) && (
            whole.len() > 0 ==> !contains_seq(cut, whole)))
        }),
{
    let (cut, code) = marker_cut(pattern, output);
    if code is Some {
        let caps = regex_first_captures(pattern, output).unwrap();
        let whole = caps.0;
        if whole.len() > 0 {
            let p = first_position(output, whole);
            let q = choose|q: int| #[trigger] occurs_at(output, whole, q);
            assert(is_first_occurrence(output, whole, p)) by {
                lemma_first_occurrence_exists(output, whole, q);
            }
            let head = output.take(p);
            lemma_trim_end_is_prefix(head);
            if contains_seq(cut, whole) {
                let j = choose|j: int| #[trigger] occurs_at(cut, whole, j);
                assert(cut.subrange(j, j + whole.len()) =~= output.subrange(j, j + whole.len()));
                assert(occurs_at(output, whole, j));
            }
        }
    }
}

// ---------------------------------------------------------------------------
// Laws of the marker
// ---------------------------------------------------------------------------

/// Text without regex meta characters is its own escape.
proof fn lemma_escaped_plain(t: Seq<char>)
    requires
        forall|i: int| 0 <= i < t.len() ==> !is_regex_meta(#[trigger] t[i]),
    ensures
        regex_escaped(t) == t,
    decreases t.len(),
{
    if t.len() > 0 {
        assert(t.last() == t[t.len() - 1]);
        assert forall|i: int| 0 <= i < t.drop_last().len() implies !is_regex_meta(
            #[trigger] t.drop_last()[i],
        ) by {
            assert(t.drop_last()[i] == t[i]);
        }
        lemma_escaped_plain(t.drop_last());
        assert(t.drop_last().push(t.last()) =~= t);
    }
}

/// The session looks for the marker, `:` and the exit code's whole run of
/// digits (`\d+`, one or more), captured as group 1: the marker holds no
/// regex meta character, so it stands for itself in the pattern.
pub proof fn lemma_session_pattern()
    ensures
        marker_pattern() == "___MCP_BUILD_DONE___:(\\d+)"@,
        forall|o: Seq<char>|
            #[trigger] BuildSession::cut(o) == if regex_compiles("___MCP_BUILD_DONE___:(\\d+)"@) {
                marker_cut("___MCP_BUILD_DONE___:(\\d+)"@, o)
            } else {
                (o, None)
            },
{
    reveal_strlit("___MCP_BUILD_DONE___");
    reveal_strlit(":(\\d+)");
    reveal_strlit("___MCP_BUILD_DONE___:(\\d+)");
    let m = BUILD_MARKER@;
    assert(m == "___MCP_BUILD_DONE___"@);
    assert forall|i: int| 0 <= i < m.len() implies !is_regex_meta(#[trigger] m[i]) by {}
    lemma_escaped_plain(m);
    assert(m + ":(\\d+)"@ =~= "___MCP_BUILD_DONE___:(\\d+)"@);
}

/// The decimal digits of `n` are a run of digits whose value is `n`.
proof fn lemma_decimal_digits(n: nat)
    ensures
        is_digit_run(decimal(n)),
        digits_value(decimal(n)) == n,
        is_ascii_digit(decimal(n)[0]),
    decreases n,
{
    if n < 10 {
        let c = digit_char(n as int);
        assert(c as int == n + 48);
        assert(decimal(n) == seq![c]);
        assert(seq![c].drop_last() =~= Seq::<char>::empty());
        assert(digit_value(c) == n);
        assert(seq![c].last() == c);
        assert(digits_value(Seq::<char>::empty()) == 0);
        assert(digits_value(seq![c]) == n);
    } else {
        lemma_decimal_digits(n / 10);
        let d = decimal(n / 10);
        let c = digit_char((n % 10) as int);
        assert(c as int == n % 10 + 48);
        assert(decimal(n) == d.push(c));
        assert(d.push(c).drop_last() =~= d);
        assert((n / 10) * 10 + n % 10 == n) by (nonlinear_arith);
        assert(digit_value(c) == n % 10);
        assert(digits_value(d.push(c)) == digits_value(d) * 10 + (digit_value(c) as nat));
        assert(digits_value(decimal(n)) == n);
        assert(d.push(c)[0] == d[0]);
        assert forall|i: int| 0 <= i < d.push(c).len() implies #[trigger] is_ascii_digit(
            d.push(c)[i],
        ) by {
            if i < d.len() {
                assert(d.push(c)[i] == d[i]);
            }
        }
    }
}

/// In the text `o`, a newline, then `whole` (which starts with the marker)
/// and more, where `o` does not hold the marker, `whole` first occurs right
/// after the newline.
/// No occurrence of `whole` (which starts with the marker) starts in `o`
/// or at the newline after it, when `o` does not hold the marker.
proof fn lemma_no_early_match(o: Seq<char>, whole: Seq<char>, text: Seq<char>, j: int)
    requires
        !contains_seq(o, BUILD_MARKER@),
        whole.len() >= BUILD_MARKER@.len(),
        whole.subrange(0, BUILD_MARKER@.len() as int) == BUILD_MARKER@,
        text.len() > o.len(),
        text.subrange(0, o.len() as int) == o,
        text[o.len() as int] == '\n',
        0 <= j <= o.len(),
    ensures
        !occurs_at(text, whole, j),
{
    reveal_strlit("___MCP_BUILD_DONE___");
    let m = BUILD_MARKER@;
    if occurs_at(text, whole, j) {
        assert(text.subrange(j, j + m.len()) =~= text.subrange(j, j + whole.len()).subrange(
            0,
            m.len() as int,
        ));
        assert(occurs_at(text, m, j));
        if j + m.len() <= o.len() {
            assert(o.subrange(j, j + m.len()) =~= text.subrange(j, j + m.len()));
            assert(occurs_at(o, m, j));
        } else {
            assert forall|t: int| 0 <= t < m.len() implies #[trigger] m[t] != '\n' by {}
            lemma_occurrence_avoids_newline(text, m, j, o.len() as int);
        }
    }
}

/// In the text `o`, a newline, then `whole` (which starts with the marker)
/// and more, where `o` does not hold the marker, `whole` first occurs right
/// after the newline.
proof fn lemma_marker_line_first(o: Seq<char>, whole: Seq<char>, more: Seq<char>)
    requires
        !contains_seq(o, BUILD_MARKER@),
        whole.len() >= BUILD_MARKER@.len(),
        whole.subrange(0, BUILD_MARKER@.len() as int) == BUILD_MARKER@,
    ensures
        first_position(o + seq!['\n'] + whole + more, whole) == o.len() + 1,
        contains_seq(o + seq!['\n'] + whole + more, whole),
{
    let text = o + seq!['\n'] + whole + more;
    let p: int = o.len() as int + 1;
    assert(text.subrange(p, p + whole.len()) =~= whole);
    assert(occurs_at(text, whole, p));
    assert(text.subrange(0, o.len() as int) =~= o);
    assert(text[o.len() as int] == '\n');
    assert forall|j: int| 0 <= j < p implies !#[trigger] occurs_at(text, whole, j) by {
        lemma_no_early_match(o, whole, text, j);
    }
    assert(is_first_occurrence(text, whole, p));
    let q = first_position(text, whole);
    assert(is_first_occurrence(text, whole, q));
    if q < p {
        assert(!occurs_at(text, whole, q));
    }
    if p < q {
        assert(!occurs_at(text, whole, p));
    }
}

/// Where the marker line follows an output `o` that does not hold the
/// marker: given the match the marker pattern reports there (the marker,
/// `:` and all the digits of the code `c`, with the digits as group 1), the
/// output is cut back to `o` without trailing white space and the code is
/// `c`, whatever comes after the line.
pub proof fn lemma_marker_line_cut(o: Seq<char>, c: nat, after: Seq<char>)
    requires
        !contains_seq(o, BUILD_MARKER@),
        c <= i32::MAX,
    ensures
        ({
            let whole = BUILD_MARKER@ + ":"@ + decimal(c);
            let text = o + seq!['\n'] + whole + seq!['\n'] + after;
            cut_at_captures(text, Some((whole, Some(decimal(c))))) == (
                trim_end_spec(o),
                Some(c as i32),
            )
        }),
{
    let m = BUILD_MARKER@;
    let whole = m + ":"@ + decimal(c);
    let more = seq!['\n'] + after;
    let text = o + seq!['\n'] + whole + seq!['\n'] + after;
    assert(text =~= o + seq!['\n'] + whole + more);
    assert(whole.subrange(0, m.len() as int) =~= m);
    lemma_marker_line_first(o, whole, more);
    lemma_decimal_digits(c);
    assert(decimal(c)[0] != '-' && decimal(c)[0] != '+');
    assert(parse_i32_spec(decimal(c)) == Some(c as i32));
    assert(text.take(o.len() as int + 1) =~= o.push('\n'));
    assert(o.push('\n').drop_last() =~= o);
}

/// What the run does after a look at the output.
#[derive(Debug, Clone, Copy, PartialEq, Eq, Structural)]
pub enum Step {
    /// The marker arrived: the run is over.
    Finished,
    /// The command exited without the marker: wait a grace period, take the
    /// last output with [`BuildSession::on_child_exit`], and stop.
    ChildExited,
    /// The longest wait has passed: kill the command and stop.
    TimedOut,
    /// Keep waiting: sleep one poll interval and look again.
    KeepWaiting,
}

/// The step after a look at the output: the marker ends the run first; then
/// an exited command; then the deadline, once `elapsed_ms` milliseconds of
/// the `max_wait_ms` allowed have passed; otherwise the run goes on.
pub open spec fn step_after(found: bool, child_exited: bool, elapsed_ms: u128, max_wait_ms: u64) -> Step {
    if found {
        Step::Finished
    } else if child_exited {
        Step::ChildExited
    } else if elapsed_ms >= max_wait_ms {
        Step::TimedOut
    } else {
        Step::KeepWaiting
    }
}

/// Decides what the run does after a look at the output (see [`step_after`]).
pub fn next_step(found: bool, child_exited: bool, elapsed_ms: u128, max_wait_ms: u64) -> (s: Step)
    ensures
        s == step_after(found, child_exited, elapsed_ms, max_wait_ms),
{
    if found {
        Step::Finished
    } else if child_exited {
        Step::ChildExited
    } else if elapsed_ms >= max_wait_ms as u128 {
        Step::TimedOut
    } else {
        Step::KeepWaiting
    }
}

/// The state of one build run: the output gathered so far, how much of it
/// has been handed to the log, and the exit code once known.
pub struct BuildSession {
    marker: Option<CompiledRegex>,
    output: String,
    logged_len: usize,
    exit_code: Option<i32>,
}

/// `n`, but at most `len`.
pub open spec fn at_most(n: nat, len: nat) -> nat {
    if n <= len {
        n
    } else {
        len
    }
}

impl BuildSession {
    /// The output gathered so far.
    pub closed spec fn output_text(self) -> Seq<char> {
        self.output@
    }

    /// How many characters of the output the log had been given when it was
    /// last given any (the output may have been cut shorter since).
    pub closed spec fn logged_len(self) -> nat {
        self.logged_len as nat
    }

    /// The exit code, once known.
    pub closed spec fn code(self) -> Option<i32> {
        self.exit_code
    }

    /// The marker regex in use is the one compiled from [`marker_pattern`],
    /// when that compiles.
    pub closed spec fn wf(self) -> bool {
        &&& self.marker.is_some() == regex_compiles(marker_pattern())
        &&& self.marker matches Some(m) ==> m@ == marker_pattern()
    }

    /// What matching the marker does to `output` in this session.
    pub open spec fn cut(output: Seq<char>) -> (Seq<char>, Option<i32>) {
        if regex_compiles(marker_pattern()) {
            marker_cut(marker_pattern(), output)
        } else {
            (output, None)
        }
    }

    /// A session with no output yet.
    pub fn new() -> (r: BuildSession)
        ensures
            r.wf(),
            r.output_text() == Seq::<char>::empty(),
            r.logged_len() == 0,
            r.code() is None,
    {
        let mut pattern = escape(BUILD_MARKER);
        push_str(&mut pattern, ":(\\d+)");
        let marker = compile(pattern.as_str());
        BuildSession { marker, output: String::new(), logged_len: 0, exit_code: None }
    }

    /// Matches the marker in the output gathered so far.
    fn match_marker_here(&mut self) -> (r: Option<i32>)
        requires
            old(self).wf(),
        ensures
            final(self).wf(),
            (final(self).output_text(), r) == Self::cut(old(self).output_text()),
            final(self).logged_len() == old(self).logged_len(),
            final(self).code() == old(self).code(),
    {
        match &self.marker {
            Some(re) => match_marker(re, &mut self.output),
            None => None,
        }
    }

    /// Hands the log what it has not been given of the output yet.
    fn take_log_chunk(&mut self) -> (chunk: String)
        requires
            old(self).wf(),
        ensures
            final(self).wf(),
            chunk@ == old(self).output_text().skip(
                at_most(old(self).logged_len(), old(self).output_text().len()) as int,
            ),
            final(self).logged_len() == old(self).output_text().len(),
            final(self).output_text() == old(self).output_text(),
            final(self).code() == old(self).code(),
    {
        let chars = chars_of(self.output.as_str());
        let from = if self.logged_len <= chars.len() {
            self.logged_len
        } else {
            chars.len()
        };
        let mut chunk = String::new();
        push_range(&mut chunk, chars.as_slice(), from, chars.len());
        assert(chars@.subrange(from as int, chars@.len() as int) =~= chars@.skip(from as int));
        self.logged_len = chars.len();
        chunk
    }

    /// Takes output read while the command runs. Returns what goes to the
    /// log (all output the log has not been given, the marker line included,
    /// as the log cuts that itself) and whether the marker has now been
    /// matched; then the output is cut at the marker and the exit code is known.
    pub fn on_output(&mut self, data: &str) -> (r: (String, bool))
        requires
            old(self).wf(),
        ensures
            final(self).wf(),
            ({
                let all = old(self).output_text() + data@;
                let (cut, code) = Self::cut(all);
                &&& r.0@ == all.skip(at_most(old(self).logged_len(), all.len()) as int)
                &&& r.1 == code.is_some()
                &&& final(self).output_text() == cut
                &&& final(self).code() == if code.is_some() {
                    code
                } else {
                    old(self).code()
                }
                &&& final(self).logged_len() == all.len()
            }),
            old(self).logged_len() == old(self).output_text().len() ==> r.0@ == data@,
    {
        proof {
            let all = old(self).output_text() + data@;
            assert(all.skip(old(self).output_text().len() as int) =~= data@);
        }
        push_str(&mut self.output, data);
        let chunk = self.take_log_chunk();
        let found = self.match_marker_here();
        match found {
            Some(code) => {
                self.exit_code = Some(code);
            },
            None => {},
        }
        (chunk, found.is_some())
    }

    /// Takes the output read after the command exited without the marker
    /// having been matched: the marker's exit code when it matches now,
    /// otherwise the process's exit status (`-1` when it has none, as after
    /// a signal).
    pub fn on_child_exit(&mut self, data: &str, status_code: Option<i32>)
        requires
            old(self).wf(),
        ensures
            final(self).wf(),
            ({
                let all = old(self).output_text() + data@;
                let (cut, code) = Self::cut(all);
                &&& final(self).output_text() == cut
                &&& final(self).code() == Some(
                    match code {
                        Some(c) => c,
                        None => match status_code {
                            Some(s) => s,
                            None => -1i32,
                        },
                    },
                )
                &&& final(self).logged_len() == old(self).logged_len()
            }),
    {
        push_str(&mut self.output, data);
        let found = self.match_marker_here();
        let code = match found {
            Some(c) => c,
            None => match status_code {
                Some(s) => s,
                None => -1i32,
            },
        };
        self.exit_code = Some(code);
    }

    /// Takes the output still read after the run ended, drops trailing white
    /// space, and returns what the log has not been given yet.
    pub fn finish(&mut self, data: &str) -> (chunk: String)
        requires
            old(self).wf(),
        ensures
            final(self).wf(),
            ({
                let all = trim_end_spec(old(self).output_text() + data@);
                &&& final(self).output_text() == all
                &&& chunk@ == all.skip(at_most(old(self).logged_len(), all.len()) as int)
                &&& final(self).code() == old(self).code()
            }),
    {
        push_str(&mut self.output, data);
        let chars = chars_of(self.output.as_str());
        let trimmed = trim_end_chars(chars.as_slice());
        self.output = string_of(trimmed.as_slice());
        self.take_log_chunk()
    }

    /// The outcome of the run: the exit code (`None` after a timeout) and
    /// the output.
    pub fn into_outcome(self) -> (r: BuildOutcome)
        ensures
            r.exit_code == self.code(),
            r.output@ == self.output_text(),
    {
        BuildOutcome { exit_code: self.exit_code, output: self.output }
    }
}

} // verus!

//! Classification of build output lines into errors, warnings and other
//! lines; collection of the classified lines; the structured result text.

use vstd::prelude::*;

use crate::pattern::{compile, is_match, regex_compiles, regex_is_match, CompiledRegex};
use crate::text::{
    chars_of, decimal, join_with, lemma_join_split, lemma_join_split_at,
    lemma_join_starts_with_first, lemma_split_append, lemma_split_on_nonempty, push_char, push_decimal, push_joined,
    push_signed, push_str, signed_decimal, split_chars, split_on, string_of, trim_chars, trim_spec,
    views,
};

verus! {

/// How many trailing lines are shown when output is not classified.
pub const TAIL_LINES: usize = 50;

// ---------------------------------------------------------------------------
// Tail of the output
// ---------------------------------------------------------------------------

/// The last `n` lines of `text`: a placeholder when the text is empty,
/// whatever `n` is; the whole text when it has at most `n` lines; otherwise a note with the number
/// of lines left out followed by the last `n` lines.
pub open spec fn tail_lines_spec(text: Seq<char>, n: nat) -> Seq<char> {
    let lines = split_on(text, '\n');
    if text.len() == 0 {
        "(no output)"@
    } else if lines.len() <= n {
        text
    } else {
        "...(truncated "@ + decimal((lines.len() - n) as nat) + " lines)\n"@ + join_with(
            lines.subrange(lines.len() - n, lines.len() as int),
            seq!['\n'],
        )
    }
}

/// Returns the last `n` lines of `text` (`(no output)` for an empty text,
/// whatever `n` is; all of it when it has at most `n` lines), prefixed by the number of lines
/// left out when it is longer.
pub fn tail_lines(text: &str, n: usize) -> (r: String)
    ensures
        r@ == tail_lines_spec(text@, n as nat),
{
    let chars = chars_of(text);
    let lines = split_chars(chars.as_slice(), '\n');
    if chars.len() == 0 {
        String::from_str("(no output)")
    } else if lines.len() <= n {
        String::from_str(text)
    } else {
        let mut r = String::from_str("...(truncated ");
        push_decimal(&mut r, (lines.len() - n) as u64);
        push_str(&mut r, " lines)\n");
        push_joined(&mut r, lines.as_slice(), lines.len() - n, lines.len(), '\n');
        r
    }
}

/// When the text is cut, what is kept after the note is a piece of the text
/// itself: its last characters, unchanged.
pub proof fn lemma_tail_is_suffix(text: Seq<char>, n: nat)
    ensures
        ({
            let lines = split_on(text, '\n');
            let kept = join_with(lines.subrange(lines.len() - n, lines.len() as int), seq!['\n']);
            lines.len() > n ==> {
                &&& kept.len() <= text.len()
                &&& text.subrange(text.len() - kept.len(), text.len() as int) == kept
            }
        }),
{
    let lines = split_on(text, '\n');
    if lines.len() > n {
        let k = lines.len() - n;
        let kept = join_with(lines.subrange(k, lines.len() as int), seq!['\n']);
        lemma_join_split(text, '\n');
        if n == 0 {
            assert(lines.subrange(k, lines.len() as int) =~= Seq::<Seq<char>>::empty());
            assert(text.subrange(text.len() as int, text.len() as int) =~= kept);
        } else {
            lemma_join_split_at(lines, seq!['\n'], k);
            assert(lines.skip(k) =~= lines.subrange(k, lines.len() as int));
            let head = join_with(lines.take(k), seq!['\n']) + seq!['\n'];
            assert(text == head + kept);
            assert(text.subrange(text.len() - kept.len(), text.len() as int) =~= kept);
        }
    }
}

// ---------------------------------------------------------------------------
// Categories and their patterns
// ---------------------------------------------------------------------------

/// The category of one output line.
#[derive(Debug, Clone, Copy, PartialEq, Eq, Structural)]
pub enum BuildCategory {
    Error,
    Warning,
    Info,
}

/// Patterns of error lines: `error`/`fatal` prefixes, linker failures
/// (`undefined reference`, `collect2: error`, `ld returned`), make failures
/// (`No rule to make`, `make[N]: ***`), missing files or symbols, explicit
/// `failed` steps.
pub open spec fn error_patterns() -> Seq<Seq<char>> {
    seq![
        "(?i)\\berror\\b[:\\s\\]]"@,
        "(?i)\\bfatal\\b[:\\s]"@,
        "(?i)undefined reference"@,
        "(?i)No rule to make"@,
        "(?i)make(?:\\[.+\\])?: \\*\\*\\*"@,
        "(?i)cannot find"@,
        "(?i)can'?t\\s+find"@,
        "(?i)collect2: error"@,
        "(?i)ld returned"@,
        "(?i)\\bfailed\\b[:\\s\\]]"@,
        "(?i)no such file or directory"@,
    ]
}

/// Patterns of warning lines: `warning`/`warn` prefixes, deprecations, and
/// GCC/Clang warning tags in brackets such as `[-Wunused-variable]` (not
/// command-line flags such as `-Wall`).
pub open spec fn warning_patterns() -> Seq<Seq<char>> {
    seq![
        "(?i)\\bwarning\\b[:\\s\\]]"@,
        "(?i)\\bwarn\\b[:\\s\\]]"@,
        "(?i)\\bdeprecated\\b"@,
        "(?i)\\[-W[a-z]"@,
    ]
}

/// Whether the pattern compiles and matches somewhere in `line`.
pub open spec fn pattern_hits(pattern: Seq<char>, line: Seq<char>) -> bool {
    regex_compiles(pattern) && regex_is_match(pattern, line)
}

/// Whether one of `patterns` hits `line`.
pub open spec fn any_hits(patterns: Seq<Seq<char>>, line: Seq<char>) -> bool {
    exists|i: int| 0 <= i < patterns.len() && #[trigger] pattern_hits(patterns[i], line)
}

/// The category of a line, given whether an error pattern and whether a
/// warning pattern matched it: errors take precedence over warnings,
/// anything else is information.
pub open spec fn category_from(error_hit: bool, warning_hit: bool) -> BuildCategory {
    if error_hit {
        BuildCategory::Error
    } else if warning_hit {
        BuildCategory::Warning
    } else {
        BuildCategory::Info
    }
}

/// The category of `line` (see [`category_from`]).
pub open spec fn category_of(line: Seq<char>) -> BuildCategory {
    category_from(any_hits(error_patterns(), line), any_hits(warning_patterns(), line))
}

/// The category of a line, given whether an error pattern and whether a
/// warning pattern matched it.
pub fn category_from_hits(error_hit: bool, warning_hit: bool) -> (r: BuildCategory)
    ensures
        r == category_from(error_hit, warning_hit),
{
    if error_hit {
        BuildCategory::Error
    } else if warning_hit {
        BuildCategory::Warning
    } else {
        BuildCategory::Info
    }
}

proof fn lemma_pattern_lists()
    ensures
        error_patterns().len() == 11,
        warning_patterns().len() == 4,
        error_patterns()[0] == "(?i)\\berror\\b[:\\s\\]]"@,
        error_patterns()[1] == "(?i)\\bfatal\\b[:\\s]"@,
        error_patterns()[2] == "(?i)undefined reference"@,
        error_patterns()[3] == "(?i)No rule to make"@,
        error_patterns()[4] == "(?i)make(?:\\[.+\\])?: \\*\\*\\*"@,
        error_patterns()[5] == "(?i)cannot find"@,
        error_patterns()[6] == "(?i)can'?t\\s+find"@,
        error_patterns()[7] == "(?i)collect2: error"@,
        error_patterns()[8] == "(?i)ld returned"@,
        error_patterns()[9] == "(?i)\\bfailed\\b[:\\s\\]]"@,
        error_patterns()[10] == "(?i)no such file or directory"@,
        warning_patterns()[0] == "(?i)\\bwarning\\b[:\\s\\]]"@,
        warning_patterns()[1] == "(?i)\\bwarn\\b[:\\s\\]]"@,
        warning_patterns()[2] == "(?i)\\bdeprecated\\b"@,
        warning_patterns()[3] == "(?i)\\[-W[a-z]"@,
{
}

/// Whether one of the error patterns, as written here, matches `line`.
pub open spec fn error_listed_hit(line: Seq<char>) -> bool {
    ||| pattern_hits("(?i)\\berror\\b[:\\s\\]]"@, line)
    ||| pattern_hits("(?i)\\bfatal\\b[:\\s]"@, line)
    ||| pattern_hits("(?i)undefined reference"@, line)
    ||| pattern_hits("(?i)No rule to make"@, line)
    ||| pattern_hits("(?i)make(?:\\[.+\\])?: \\*\\*\\*"@, line)
    ||| pattern_hits("(?i)cannot find"@, line)
    ||| pattern_hits("(?i)can'?t\\s+find"@, line)
    ||| pattern_hits("(?i)collect2: error"@, line)
    ||| pattern_hits("(?i)ld returned"@, line)
    ||| pattern_hits("(?i)\\bfailed\\b[:\\s\\]]"@, line)
    ||| pattern_hits("(?i)no such file or directory"@, line)
}

/// Whether one of the warning patterns, as written here, matches `line`.
pub open spec fn warning_listed_hit(line: Seq<char>) -> bool {
    ||| pattern_hits("(?i)\\bwarning\\b[:\\s\\]]"@, line)
    ||| pattern_hits("(?i)\\bwarn\\b[:\\s\\]]"@, line)
    ||| pattern_hits("(?i)\\bdeprecated\\b"@, line)
    ||| pattern_hits("(?i)\\[-W[a-z]"@, line)
}

/// Which lines are errors, warnings and information, pattern by pattern: a
/// line is an error exactly when one of the case-insensitive error patterns
/// below matches it (so `No such file or directory`, in any letter case, is
/// an error); otherwise a warning exactly when one of the case-insensitive
/// warning patterns matches it (a `[-W...]` tag, not a `-Wall` flag);
/// otherwise information.
pub proof fn lemma_categories_by_pattern(line: Seq<char>)
    ensures
        category_of(line) == BuildCategory::Error <==> error_listed_hit(line),
        category_of(line) == BuildCategory::Warning <==> !error_listed_hit(line)
            && warning_listed_hit(line),
        category_of(line) == BuildCategory::Info <==> !error_listed_hit(line)
            && !warning_listed_hit(line),
        pattern_hits("(?i)no such file or directory"@, line) ==> category_of(line)
            == BuildCategory::Error,
{
    lemma_pattern_lists();
    let e = error_patterns();
    let w = warning_patterns();
    assert(any_hits(e, line) <==> error_listed_hit(line)) by {
        if error_listed_hit(line) {
            if pattern_hits(e[0], line) {} else if pattern_hits(e[1], line) {} else if pattern_hits(e[2], line) {}
            else if pattern_hits(e[3], line) {} else if pattern_hits(e[4], line) {} else if pattern_hits(e[5], line) {}
            else if pattern_hits(e[6], line) {} else if pattern_hits(e[7], line) {} else if pattern_hits(e[8], line) {}
            else if pattern_hits(e[9], line) {} else if pattern_hits(e[10], line) {}
        }
        if any_hits(e, line) {
            let i = choose|i: int| 0 <= i < e.len() && #[trigger] pattern_hits(e[i], line);
            assert(0 <= i < 11);
        }
    }
    assert(any_hits(w, line) <==> warning_listed_hit(line)) by {
        if warning_listed_hit(line) {
            if pattern_hits(w[0], line) {} else if pattern_hits(w[1], line) {} else if pattern_hits(w[2], line) {}
            else if pattern_hits(w[3], line) {}
        }
        if any_hits(w, line) {
            let i = choose|i: int| 0 <= i < w.len() && #[trigger] pattern_hits(w[i], line);
            assert(0 <= i < 4);
        }
    }
}

/// Whether `compiled` holds, position by position, the compilation of `patterns`.
pub open spec fn compiled_from(compiled: Seq<Option<CompiledRegex>>, patterns: Seq<Seq<char>>) -> bool {
    &&& compiled.len() == patterns.len()
    &&& forall|i: int|
        0 <= i < compiled.len() ==> {
            &&& (#[trigger] compiled[i]).is_some() == regex_compiles(patterns[i])
            &&& compiled[i] matches Some(c) ==> c@ == patterns[i]
        }
}

fn compile_all(patterns: &Vec<&'static str>, ghost_patterns: Ghost<Seq<Seq<char>>>) -> (r: Vec<
    Option<CompiledRegex>,
>)
    requires
        patterns@.len() == ghost_patterns@.len(),
        forall|i: int| 0 <= i < patterns@.len() ==> #[trigger] patterns@[i]@ == ghost_patterns@[i],
    ensures
        compiled_from(r@, ghost_patterns@),
{
    let mut r: Vec<Option<CompiledRegex>> = Vec::new();
    let mut i: usize = 0;
    while i < patterns.len()
        invariant
            i <= patterns@.len(),
            patterns@.len() == ghost_patterns@.len(),
            forall|j: int| 0 <= j < patterns@.len() ==> #[trigger] patterns@[j]@ == ghost_patterns@[j],
            compiled_from(r@, ghost_patterns@.take(i as int)),
        decreases patterns.len() - i,
    {
        let c = compile(patterns[i]);
        r.push(c);
        i = i + 1;
        assert(compiled_from(r@, ghost_patterns@.take(i as int))) by {
            assert forall|j: int| 0 <= j < r@.len() implies {
                &&& (#[trigger] r@[j]).is_some() == regex_compiles(ghost_patterns@.take(i as int)[j])
                &&& r@[j] matches Some(c) ==> c@ == ghost_patterns@.take(i as int)[j]
            } by {
                if j < i - 1 {
                    assert(ghost_patterns@.take(i as int)[j] == ghost_patterns@.take(i - 1)[j]);
                }
            }
        }
    }
    assert(ghost_patterns@.take(i as int) =~= ghost_patterns@);
    r
}

fn error_pattern_list() -> (v: Vec<&'static str>)
    ensures
        v@.len() == error_patterns().len(),
        forall|i: int| 0 <= i < v@.len() ==> #[trigger] v@[i]@ == error_patterns()[i],
{
    let mut v: Vec<&'static str> = Vec::new();
    v.push("(?i)\\berror\\b[:\\s\\]]");
    v.push("(?i)\\bfatal\\b[:\\s]");
    v.push("(?i)undefined reference");
    v.push("(?i)No rule to make");
    v.push("(?i)make(?:\\[.+\\])?: \\*\\*\\*");
    v.push("(?i)cannot find");
    v.push("(?i)can'?t\\s+find");
    v.push("(?i)collect2: error");
    v.push("(?i)ld returned");
    v.push("(?i)\\bfailed\\b[:\\s\\]]");
    v.push("(?i)no such file or directory");
    v
}

fn warning_pattern_list() -> (v: Vec<&'static str>)
    ensures
        v@.len() == warning_patterns().len(),
        forall|i: int| 0 <= i < v@.len() ==> #[trigger] v@[i]@ == warning_patterns()[i],
{
    let mut v: Vec<&'static str> = Vec::new();
    v.push("(?i)\\bwarning\\b[:\\s\\]]");
    v.push("(?i)\\bwarn\\b[:\\s\\]]");
    v.push("(?i)\\bdeprecated\\b");
    v.push("(?i)\\[-W[a-z]");
    v
}

/// The error and warning patterns, compiled once for classifying many lines.
pub struct LineClassifier {
    errors: Vec<Option<CompiledRegex>>,
    warnings: Vec<Option<CompiledRegex>>,
}

impl LineClassifier {
    #[verifier::type_invariant]
    spec fn holds_patterns(self) -> bool {
        &&& compiled_from(self.errors@, error_patterns())
        &&& compiled_from(self.warnings@, warning_patterns())
    }

    /// The compiled error patterns, in the order of [`error_patterns`].
    pub closed spec fn error_regexes(self) -> Seq<Option<CompiledRegex>> {
        self.errors@
    }

    /// The compiled warning patterns, in the order of [`warning_patterns`].
    pub closed spec fn warning_regexes(self) -> Seq<Option<CompiledRegex>> {
        self.warnings@
    }

    /// Compiles the error and warning patterns: each entry holds the regex
    /// for its pattern, or nothing where the pattern does not compile.
    pub fn new() -> (r: LineClassifier)
        ensures
            compiled_from(r.error_regexes(), error_patterns()),
            compiled_from(r.warning_regexes(), warning_patterns()),
    {
        let errors = compile_all(&error_pattern_list(), Ghost(error_patterns()));
        let warnings = compile_all(&warning_pattern_list(), Ghost(warning_patterns()));
        LineClassifier { errors, warnings }
    }

    fn hits(compiled: &Vec<Option<CompiledRegex>>, line: &str, patterns: Ghost<Seq<Seq<char>>>) -> (b:
        bool)
        requires
            compiled_from(compiled@, patterns@),
        ensures
            b == any_hits(patterns@, line@),
    {
        let mut i: usize = 0;
        while i < compiled.len()
            invariant
                i <= compiled@.len(),
                compiled_from(compiled@, patterns@),
                forall|j: int| 0 <= j < i ==> !#[trigger] pattern_hits(patterns@[j], line@),
            decreases compiled.len() - i,
        {
            match &compiled[i] {
                Some(re) => {
                    if is_match(re, line) {
                        assert(pattern_hits(patterns@[i as int], line@));
                        return true;
                    }
                },
                None => {},
            }
            assert(!pattern_hits(patterns@[i as int], line@));
            i = i + 1;
        }
        false
    }

    /// The category of `line` (see [`classify_line`]).
    pub fn classify(&self, line: &str) -> (r: BuildCategory)
        ensures
            r == category_of(line@),
    {
        proof {
            use_type_invariant(self);
        }
        let error_hit = Self::hits(&self.errors, line, Ghost(error_patterns()));
        // Warnings are only looked for when no error pattern matched.
        let warning_hit = !error_hit && Self::hits(&self.warnings, line, Ghost(warning_patterns()));
        category_from_hits(error_hit, warning_hit)
    }
}

/// Classifies one output line: an error when an error pattern matches it,
/// otherwise a warning when a warning pattern matches it, otherwise
/// information.
pub fn classify_line(line: &str) -> (r: BuildCategory)
    ensures
        r == category_of(line@),
{
    LineClassifier::new().classify(line)
}

// ---------------------------------------------------------------------------
// Collection
// ---------------------------------------------------------------------------

/// Classified build output: error and warning lines are kept, information
/// lines are only counted.
#[derive(Debug)]
pub struct BuildCollector {
    pub errors: Vec<String>,
    pub warnings: Vec<String>,
    pub info_count: usize,
}

impl Default for BuildCollector {
    /// An empty collector.
    fn default() -> (r: BuildCollector)
        ensures
            r.errors@.len() == 0,
            r.warnings@.len() == 0,
            r.info_count == 0,
    {
        BuildCollector { errors: Vec::new(), warnings: Vec::new(), info_count: 0 }
    }
}

impl BuildCollector {
    /// Records one classified line: an error or warning line is appended to
    /// its list, an information line is only counted.
    pub fn record(&mut self, line: String, category: BuildCategory)
        requires
            old(self).info_count < usize::MAX,
        ensures
            views(final(self).errors@) == if category == BuildCategory::Error {
                views(old(self).errors@).push(line@)
            } else {
                views(old(self).errors@)
            },
            views(final(self).warnings@) == if category == BuildCategory::Warning {
                views(old(self).warnings@).push(line@)
            } else {
                views(old(self).warnings@)
            },
            final(self).info_count == if category == BuildCategory::Info {
                old(self).info_count + 1
            } else {
                old(self).info_count as int
            },
    {
        let ghost line_view = line@;
        match category {
            BuildCategory::Error => {
                self.errors.push(line);
                assert(views(self.errors@) =~= views(old(self).errors@).push(line_view));
            },
            BuildCategory::Warning => {
                self.warnings.push(line);
                assert(views(self.warnings@) =~= views(old(self).warnings@).push(line_view));
            },
            BuildCategory::Info => {
                self.info_count = self.info_count + 1;
            },
        }
    }
}

/// What collecting `lines` adds: the trimmed non-blank error lines, the
/// trimmed non-blank warning lines, and the number of other non-blank lines,
/// in the order of `lines`.
pub open spec fn collected(lines: Seq<Seq<char>>) -> (Seq<Seq<char>>, Seq<Seq<char>>, nat)
    decreases lines.len(),
{
    if lines.len() == 0 {
        (Seq::empty(), Seq::empty(), 0)
    } else {
        let prev = collected(lines.drop_last());
        let t = trim_spec(lines.last());
        if t.len() == 0 {
            prev
        } else {
            match category_of(t) {
                BuildCategory::Error => (prev.0.push(t), prev.1, prev.2),
                BuildCategory::Warning => (prev.0, prev.1.push(t), prev.2),
                BuildCategory::Info => (prev.0, prev.1, prev.2 + 1),
            }
        }
    }
}

/// The number of non-blank lines among `lines`.
pub open spec fn non_blank_count(lines: Seq<Seq<char>>) -> nat
    decreases lines.len(),
{
    if lines.len() == 0 {
        0
    } else {
        non_blank_count(lines.drop_last()) + if trim_spec(lines.last()).len() == 0 {
            0nat
        } else {
            1nat
        }
    }
}

/// `str::split` gives at most one more piece than the text has characters.
proof fn lemma_split_on_len(s: Seq<char>, sep: char)
    ensures
        split_on(s, sep).len() <= s.len() + 1,
    decreases s.len(),
{
    if s.len() > 0 {
        lemma_split_on_len(s.drop_last(), sep);
        lemma_split_on_nonempty(s.drop_last(), sep);
        let init = split_on(s.drop_last(), sep);
        if s.last() != sep {
            assert(split_on(s, sep).len() == init.len());
        }
    }
}

/// Every non-blank line lands in exactly one of the three parts: the error
/// and warning lines kept plus the information lines counted are the
/// non-blank lines.
pub proof fn lemma_collected_partitions(lines: Seq<Seq<char>>)
    ensures
        ({
            let c = collected(lines);
            c.0.len() + c.1.len() + c.2 == non_blank_count(lines)
        }),
    decreases lines.len(),
{
    if lines.len() > 0 {
        lemma_collected_partitions(lines.drop_last());
    }
}

/// The non-blank lines among the first `k` are no more than among all.
proof fn lemma_non_blank_prefix(lines: Seq<Seq<char>>, k: int)
    requires
        0 <= k <= lines.len(),
    ensures
        non_blank_count(lines.take(k)) <= non_blank_count(lines),
    decreases lines.len(),
{
    if k < lines.len() {
        assert(lines.drop_last().take(k) =~= lines.take(k));
        lemma_non_blank_prefix(lines.drop_last(), k);
    } else {
        assert(lines.take(k) =~= lines);
    }
}

/// There are no more non-blank lines than lines.
proof fn lemma_non_blank_at_most_lines(lines: Seq<Seq<char>>)
    ensures
        non_blank_count(lines) <= lines.len(),
    decreases lines.len(),
{
    if lines.len() > 0 {
        lemma_non_blank_at_most_lines(lines.drop_last());
    }
}

/// A text has at most one non-blank line more than it has characters.
pub proof fn lemma_non_blank_lines_bound(s: Seq<char>)
    ensures
        non_blank_count(split_on(s, '\n')) <= s.len() + 1,
{
    lemma_split_on_len(s, '\n');
    lemma_non_blank_at_most_lines(split_on(s, '\n'));
}

/// The three parts of two collections, one after the other.
pub open spec fn combined(
    a: (Seq<Seq<char>>, Seq<Seq<char>>, nat),
    b: (Seq<Seq<char>>, Seq<Seq<char>>, nat),
) -> (Seq<Seq<char>>, Seq<Seq<char>>, nat) {
    (a.0 + b.0, a.1 + b.1, a.2 + b.2)
}

proof fn lemma_collected_concat(x: Seq<Seq<char>>, y: Seq<Seq<char>>)
    ensures
        collected(x + y) == combined(collected(x), collected(y)),
    decreases y.len(),
{
    if y.len() == 0 {
        assert(x + y =~= x);
        let c = collected(x);
        assert(c.0 + Seq::<Seq<char>>::empty() =~= c.0);
        assert(c.1 + Seq::<Seq<char>>::empty() =~= c.1);
    } else {
        lemma_collected_concat(x, y.drop_last());
        assert((x + y).drop_last() =~= x + y.drop_last());
        assert((x + y).last() == y.last());
        let cx = collected(x);
        let cy = collected(y.drop_last());
        let t = trim_spec(y.last());
        assert((cx.0 + cy.0).push(t) =~= cx.0 + cy.0.push(t));
        assert((cx.1 + cy.1).push(t) =~= cx.1 + cy.1.push(t));
    }
}

/// Collecting two outputs one after the other gives what collecting them at
/// once, joined by a newline, gives: errors, then warnings, in order, and
/// the information lines counted together.
pub proof fn lemma_collect_in_two_runs(a: Seq<char>, b: Seq<char>)
    ensures
        collected(split_on(a + seq!['\n'] + b, '\n')) == combined(
            collected(split_on(a, '\n')),
            collected(split_on(b, '\n')),
        ),
{
    let an = a.push('\n');
    assert(a + seq!['\n'] + b =~= an + b);
    lemma_split_append(an, b, '\n');
    assert(an.drop_last() =~= a);
    assert(split_on(an, '\n').drop_last() =~= split_on(a, '\n'));
    lemma_collected_concat(split_on(a, '\n'), split_on(b, '\n'));
}

/// Lines that are all blank add nothing.
pub proof fn lemma_blank_lines_add_nothing(lines: Seq<Seq<char>>)
    requires
        forall|i: int| 0 <= i < lines.len() ==> trim_spec(#[trigger] lines[i]).len() == 0,
    ensures
        collected(lines) == (Seq::<Seq<char>>::empty(), Seq::<Seq<char>>::empty(), 0nat),
    decreases lines.len(),
{
    if lines.len() > 0 {
        assert forall|i: int| 0 <= i < lines.drop_last().len() implies trim_spec(
            #[trigger] lines.drop_last()[i],
        ).len() == 0 by {
            assert(lines.drop_last()[i] == lines[i]);
        }
        lemma_blank_lines_add_nothing(lines.drop_last());
        assert(trim_spec(lines[lines.len() - 1]).len() == 0);
    }
}

/// Classifies each line of `raw_output` (trimmed; blank lines are skipped)
/// and appends error and warning lines to the collector's lists, counting
/// the other lines.
pub fn collect_output(collector: &mut BuildCollector, raw_output: &str)
    requires
        old(collector).info_count + non_blank_count(split_on(raw_output@, '\n')) <= usize::MAX,
    ensures
        ({
            let c = collected(split_on(raw_output@, '\n'));
            &&& views(final(collector).errors@) == views(old(collector).errors@) + c.0
            &&& views(final(collector).warnings@) == views(old(collector).warnings@) + c.1
            &&& final(collector).info_count == old(collector).info_count + c.2
        }),
{
    let classifier = LineClassifier::new();
    let chars = chars_of(raw_output);
    let lines = split_chars(chars.as_slice(), '\n');
    let ghost ls = split_on(raw_output@, '\n');
    let mut i: usize = 0;
    assert(ls.take(0) =~= Seq::<Seq<char>>::empty());
    while i < lines.len()
        invariant
            i <= lines@.len(),
            views(lines@) == ls,
            old(collector).info_count + non_blank_count(ls) <= usize::MAX,
            ({
                let c = collected(ls.take(i as int));
                &&& views(collector.errors@) == views(old(collector).errors@) + c.0
                &&& views(collector.warnings@) == views(old(collector).warnings@) + c.1
                &&& collector.info_count == old(collector).info_count + c.2
            }),
        decreases lines.len() - i,
    {
        let ghost prefix = ls.take(i as int);
        assert(ls.take(i + 1).drop_last() =~= prefix);
        assert(ls.take(i + 1).last() == lines@[i as int]@);
        proof {
            lemma_collected_partitions(prefix);
            lemma_non_blank_prefix(ls, i + 1);
        }
        let line_chars = chars_of(lines[i].as_str());
        let trimmed_chars = trim_chars(line_chars.as_slice());
        if trimmed_chars.len() > 0 {
            let trimmed = string_of(trimmed_chars.as_slice());
            let category = classifier.classify(trimmed.as_str());
            collector.record(trimmed, category);
        }
        i = i + 1;
    }
    assert(ls.take(lines@.len() as int) =~= ls);
}

// ---------------------------------------------------------------------------
// Result text
// ---------------------------------------------------------------------------

/// The first line of the result: success or failure, with the exit code.
pub open spec fn status_line(exit_code: int) -> Seq<char> {
    (if exit_code == 0 {
        "BUILD SUCCESS"@
    } else {
        "BUILD FAILED"@
    }) + " (exit code: "@ + signed_decimal(exit_code) + ")"@
}

/// The second line of the result: how many lines of each kind there were.
pub open spec fn summary_line(errors: nat, warnings: nat, info_count: nat) -> Seq<char> {
    "Summary: "@ + decimal(errors) + " error(s), "@ + decimal(warnings) + " warning(s), "@
        + decimal(info_count) + " info line(s)"@
}

/// The entries of a list, numbered from 1: `[<tag><n>] <item>`.
pub open spec fn numbered_entries(tag: Seq<char>, items: Seq<Seq<char>>) -> Seq<Seq<char>> {
    Seq::new(items.len(), |i: int| "["@ + tag + decimal((i + 1) as nat) + "] "@ + items[i])
}

/// A section of the result: a blank line, a heading with the count, and the
/// numbered entries (or `(none)`).
pub open spec fn section_lines(title: Seq<char>, tag: Seq<char>, items: Seq<Seq<char>>) -> Seq<
    Seq<char>,
> {
    seq![Seq::empty(), "=== "@ + title + " ("@ + decimal(items.len()) + ") ==="@] + if items.len()
        == 0 {
        seq!["(none)"@]
    } else {
        numbered_entries(tag, items)
    }
}

/// The lines of the result text.
pub open spec fn result_lines(
    errors: Seq<Seq<char>>,
    warnings: Seq<Seq<char>>,
    info_count: nat,
    exit_code: int,
) -> Seq<Seq<char>> {
    seq![status_line(exit_code), summary_line(errors.len(), warnings.len(), info_count)]
        + section_lines("ERRORS"@, "E"@, errors) + section_lines("WARNINGS"@, "W"@, warnings)
}

fn push_section(parts: &mut Vec<String>, title: &str, tag: &str, items: &Vec<String>)
    ensures
        views(final(parts)@) == views(old(parts)@) + section_lines(title@, tag@, views(items@)),
{
    let ghost start = views(parts@);
    let ghost want = section_lines(title@, tag@, views(items@));
    parts.push(String::new());
    let mut heading = String::from_str("=== ");
    push_str(&mut heading, title);
    push_str(&mut heading, " (");
    push_decimal(&mut heading, items.len() as u64);
    push_str(&mut heading, ") ===");
    parts.push(heading);
    assert(views(parts@) =~= start + want.take(2));
    if items.len() == 0 {
        parts.push(String::from_str("(none)"));
        assert(views(parts@) =~= start + want);
    } else {
        let ghost entries = numbered_entries(tag@, views(items@));
        let mut i: usize = 0;
        assert(entries.take(0) =~= Seq::<Seq<char>>::empty());
        while i < items.len()
            invariant
                i <= items@.len(),
                items@.len() > 0,
                entries == numbered_entries(tag@, views(items@)),
                want == section_lines(title@, tag@, views(items@)),
                views(parts@) == start + want.take(2) + entries.take(i as int),
            decreases items.len() - i,
        {
            let mut entry = String::from_str("[");
            push_str(&mut entry, tag);
            push_decimal(&mut entry, (i + 1) as u64);
            push_str(&mut entry, "] ");
            push_str(&mut entry, items[i].as_str());
            let ghost before = views(parts@);
            assert(entry@ == entries[i as int]);
            parts.push(entry);
            assert(views(parts@) =~= before.push(entry@));
            assert(entries.take(i + 1) =~= entries.take(i as int).push(entries[i as int]));
            i = i + 1;
        }
        assert(entries.take(items@.len() as int) =~= entries);
        assert(want =~= want.take(2) + entries);
        assert(views(parts@) =~= start + want);
    }
}

/// Formats the collected lines as the structured result: the status line
/// with the exit code, a summary of the counts, then the numbered errors and
/// the numbered warnings (`(none)` for an empty list), one per line.
pub fn format_build_result(collector: &BuildCollector, exit_code: i32) -> (r: String)
    ensures
        r@ == join_with(
            result_lines(
                views(collector.errors@),
                views(collector.warnings@),
                collector.info_count as nat,
                exit_code as int,
            ),
            seq!['\n'],
        ),
{
    let ghost want = result_lines(
        views(collector.errors@),
        views(collector.warnings@),
        collector.info_count as nat,
        exit_code as int,
    );
    let mut parts: Vec<String> = Vec::new();
    let mut status = if exit_code == 0 {
        String::from_str("BUILD SUCCESS")
    } else {
        String::from_str("BUILD FAILED")
    };
    push_str(&mut status, " (exit code: ");
    push_signed(&mut status, exit_code as i64);
    push_str(&mut status, ")");
    parts.push(status);
    let mut summary = String::from_str("Summary: ");
    push_decimal(&mut summary, collector.errors.len() as u64);
    push_str(&mut summary, " error(s), ");
    push_decimal(&mut summary, collector.warnings.len() as u64);
    push_str(&mut summary, " warning(s), ");
    push_decimal(&mut summary, collector.info_count as u64);
    push_str(&mut summary, " info line(s)");
    parts.push(summary);
    assert(views(parts@) =~= want.take(2));
    push_section(&mut parts, "ERRORS", "E", &collector.errors);
    push_section(&mut parts, "WARNINGS", "W", &collector.warnings);
    assert(views(parts@) =~= want);
    let mut r = String::new();
    push_joined(&mut r, parts.as_slice(), 0, parts.len(), '\n');
    assert(views(parts@).subrange(0, parts@.len() as int) =~= views(parts@));
    r
}

/// The result text opens with the status line, and it opens with
/// `BUILD SUCCESS` exactly when the exit code is 0.
pub proof fn lemma_result_opens_with_status(
    errors: Seq<Seq<char>>,
    warnings: Seq<Seq<char>>,
    info_count: nat,
    exit_code: int,
)
    ensures
        ({
            let text = join_with(result_lines(errors, warnings, info_count, exit_code), seq!['\n']);
            let status = status_line(exit_code);
            &&& text.len() >= status.len()
            &&& text.subrange(0, status.len() as int) == status
            &&& (text.len() >= 13 && text.subrange(0, 13) == "BUILD SUCCESS"@) <==> exit_code == 0
        }),
{
    let lines = result_lines(errors, warnings, info_count, exit_code);
    let text = join_with(lines, seq!['\n']);
    let status = status_line(exit_code);
    assert(lines[0] == status);
    lemma_join_starts_with_first(lines, seq!['\n']);
    reveal_strlit("BUILD SUCCESS");
    reveal_strlit("BUILD FAILED");
    reveal_strlit(" (exit code: ");
    if exit_code == 0 {
        assert(status.subrange(0, 13) =~= "BUILD SUCCESS"@);
        assert(text.subrange(0, 13) =~= status.subrange(0, 13));
    } else {
        assert(status[6] == 'F');
        assert(text[6] == status[6]);
        assert("BUILD SUCCESS"@[6] == 'S');
        if text.len() >= 13 && text.subrange(0, 13) == "BUILD SUCCESS"@ {
            assert(text.subrange(0, 13)[6] == text[6]);
        }
    }
}

} // verus!

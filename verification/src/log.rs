//! Incremental build log: output arrives in chunks; complete lines are
//! gathered and handed out in batches, each batch cleaned as a whole and
//! each of its lines stamped with the time it is written. The completion
//! marker and everything after it never reach the log, in the raw output or
//! in the cleaned text.

use vstd::prelude::*;

use crate::command::BUILD_MARKER;
use crate::sanitize::{sanitize, sanitized};
use crate::text::{
    chars_of, contains_seq, find_in_range, is_ascii_digit, is_first_occurrence,
    lemma_first_occurrence_exists, lemma_occurrence_avoids_newline, lemma_split_append,
    lemma_split_on_nonempty,
    occurs_at, push_char, push_range, push_str, split_chars, split_on, string_of, views,
};

verus! {

/// Timestamp format of log file names: `YYYYMMDD_HHMMSS` (local time).
pub const LOG_TIMESTAMP_FMT: &'static str = "%Y%m%d_%H%M%S";

/// Timestamp format of log line prefixes: `YYYY-MM-DD HH:MM:SS` (local time).
pub const LOG_LINE_TIMESTAMP_FMT: &'static str = "%Y-%m-%d %H:%M:%S";

// ---------------------------------------------------------------------------
// Time stamps
// ---------------------------------------------------------------------------

/// Whether every character of `s` is an ASCII digit.
pub open spec fn all_digits(s: Seq<char>) -> bool {
    forall|i: int| 0 <= i < s.len() ==> is_ascii_digit(#[trigger] s[i])
}

/// A year as chrono's `%Y` writes it: four digits for the years 0 to 9999,
/// otherwise a sign followed by at least four digits.
pub open spec fn is_year_text(y: Seq<char>) -> bool {
    ||| (y.len() == 4 && all_digits(y))
    ||| (y.len() >= 5 && (y[0] == '+' || y[0] == '-') && all_digits(y.drop_first()))
}

/// Whether `t` has the shape `shape`, where each `d` stands for an ASCII
/// digit and every other character for itself.
pub open spec fn fits_shape(t: Seq<char>, shape: Seq<char>) -> bool {
    &&& t.len() == shape.len()
    &&& forall|i: int|
        0 <= i < t.len() ==> if shape[i] == 'd' {
            is_ascii_digit(#[trigger] t[i])
        } else {
            t[i] == shape[i]
        }
}

/// A time written in [`LOG_TIMESTAMP_FMT`]: the year, then `MMDD_HHMMSS`.
pub open spec fn is_name_stamp(t: Seq<char>) -> bool {
    t.len() >= 11 && is_year_text(t.take(t.len() - 11)) && fits_shape(
        t.skip(t.len() - 11),
        "dddd_dddddd"@,
    )
}

/// A time written in [`LOG_LINE_TIMESTAMP_FMT`]: the year, then
/// `-MM-DD HH:MM:SS`.
pub open spec fn is_line_stamp(t: Seq<char>) -> bool {
    t.len() >= 15 && is_year_text(t.take(t.len() - 15)) && fits_shape(
        t.skip(t.len() - 15),
        "-dd-dd dd:dd:dd"@,
    )
}

/// `SystemTime::now().duration_since(UNIX_EPOCH)`: the whole seconds and the
/// nanoseconds of the current time since 1970, or `None` when the clock is
/// set before 1970. Claims only what `Duration::subsec_nanos` documents: the
/// nanoseconds are below one billion. The values depend on the clock.
#[verifier::external_body]
fn clock_since_epoch() -> (r: Option<(u64, u32)>)
    ensures
        r matches Some((_, nanos)) ==> nanos < 1_000_000_000,
{
    match std::time::SystemTime::now().duration_since(std::time::UNIX_EPOCH) {
        Ok(d) => Some((d.as_secs(), d.subsec_nanos())),
        Err(_) => None,
    }
}

/// `chrono::DateTime::from_timestamp(secs, nanos)`, taken to the local time
/// zone with `with_timezone(&Local)` and written with
/// `format(format).to_string()`; `None` when the timestamp is out of
/// chrono's range. Claims the shape chrono's formatting gives each of the two
/// formats (`%Y` as in [`is_year_text`]; month, day, hour, minute and second
/// as two digits each), and that a time from 1970 up to about the year
/// 250000 with valid nanoseconds is in range. Which time the text shows is
/// not claimed: it depends on the machine's time zone. chrono's `Local`
/// panics, inside `with_timezone`, when the system's time-zone data is
/// malformed (data that cannot be read at all makes it fall back to UTC);
/// no argument can rule that out.
#[verifier::external_body]
fn local_time_text(secs: i64, nanos: u32, format: &str) -> (r: Option<String>)
    requires
        format@ == LOG_TIMESTAMP_FMT@ || format@ == LOG_LINE_TIMESTAMP_FMT@,
    ensures
        0 <= secs <= 8_000_000_000_000 && nanos < 1_000_000_000 ==> r is Some,
        r matches Some(t) ==> (format@ == LOG_TIMESTAMP_FMT@ ==> is_name_stamp(t@)) && (format@
            == LOG_LINE_TIMESTAMP_FMT@ ==> is_line_stamp(t@)),
{
    let utc = chrono::DateTime::from_timestamp(secs, nanos)?;
    Some(utc.with_timezone(&chrono::Local).format(format).to_string())
}

/// The current local time written in `format`, one of the two log formats;
/// `None` when the clock cannot be read as a date.
fn now_text(format: &str) -> (r: Option<String>)
    requires
        format@ == LOG_TIMESTAMP_FMT@ || format@ == LOG_LINE_TIMESTAMP_FMT@,
    ensures
        r matches Some(t) ==> (format@ == LOG_TIMESTAMP_FMT@ ==> is_name_stamp(t@)) && (format@
            == LOG_LINE_TIMESTAMP_FMT@ ==> is_line_stamp(t@)),
{
    match clock_since_epoch() {
        Some((secs, nanos)) => {
            if secs <= 9_223_372_036_854_775_807u64 {
                local_time_text(secs as i64, nanos, format)
            } else {
                None
            }
        },
        None => None,
    }
}

/// The name of a new log file: the local time in `YYYYMMDD_HHMMSS` form
/// followed by `.log`; `None` when the clock cannot be read as a date.
pub fn log_file_name() -> (r: Option<String>)
    ensures
        r matches Some(name) ==> exists|stamp: Seq<char>|
            is_name_stamp(stamp) && name@ == stamp + ".log"@,
{
    match now_text(LOG_TIMESTAMP_FMT) {
        Some(stamp) => {
            let ghost s = stamp@;
            let mut name = stamp;
            push_str(&mut name, ".log");
            assert(is_name_stamp(s) && name@ == s + ".log"@);
            Some(name)
        },
        None => None,
    }
}

// ---------------------------------------------------------------------------
// Stamped lines
// ---------------------------------------------------------------------------

/// `l` without one trailing carriage return.
pub open spec fn strip_cr(l: Seq<char>) -> Seq<char> {
    if l.len() > 0 && l.last() == '\r' {
        l.drop_last()
    } else {
        l
    }
}

/// The lines of `s` as `str::lines` yields them: split at `\n`, a `\r`
/// before the `\n` dropped, no empty line after a final `\n`.
pub open spec fn text_lines(s: Seq<char>) -> Seq<Seq<char>> {
    let pieces = split_on(s, '\n');
    let n = pieces.len();
    let count: int = if n > 0 && pieces[n - 1].len() == 0 {
        n - 1
    } else {
        n as int
    };
    Seq::new(count as nat, |i: int| if i < n - 1 { strip_cr(pieces[i]) } else { pieces[i] })
}

/// Each line with `prefix` before it and `\n` after it.
pub open spec fn stamped_lines(lines: Seq<Seq<char>>, prefix: Seq<char>) -> Seq<char>
    decreases lines.len(),
{
    if lines.len() == 0 {
        Seq::empty()
    } else {
        stamped_lines(lines.drop_last(), prefix) + prefix + lines.last() + seq!['\n']
    }
}

/// Writes every line of `clean` with `prefix` before it and a newline after it.
pub fn stamp_lines(clean: &str, prefix: &str) -> (r: String)
    ensures
        r@ == stamped_lines(text_lines(clean@), prefix@),
{
    let chars = chars_of(clean);
    let pieces = split_chars(chars.as_slice(), '\n');
    let ghost ps = split_on(clean@, '\n');
    let ghost lines = text_lines(clean@);
    let n = pieces.len();
    let count = if pieces[n - 1].as_str().is_empty() {
        n - 1
    } else {
        n
    };
    proof {
        assert(views(pieces@)[n - 1] == pieces@[n - 1]@);
    }
    assert(lines.len() == count);
    let mut r = String::new();
    let mut i: usize = 0;
    assert(lines.take(0) =~= Seq::<Seq<char>>::empty());
    while i < count
        invariant
            i <= count <= n,
            n == pieces@.len(),
            n >= 1,
            views(pieces@) == ps,
            lines == text_lines(clean@),
            ps == split_on(clean@, '\n'),
            lines.len() == count,
            r@ == stamped_lines(lines.take(i as int), prefix@),
        decreases count - i,
    {
        let line = chars_of(pieces[i].as_str());
        let ghost before = r@;
        push_str(&mut r, prefix);
        let end = if i + 1 < n && line.len() > 0 && line[line.len() - 1] == '\r' {
            line.len() - 1
        } else {
            line.len()
        };
        push_range(&mut r, line.as_slice(), 0, end);
        push_char(&mut r, '\n');
        proof {
            assert(ps[i as int] == line@);
            let want = lines[i as int];
            if i + 1 < n && line@.len() > 0 && line@.last() == '\r' {
                assert(want == line@.drop_last());
                assert(line@.subrange(0, end as int) =~= want);
            } else {
                assert(line@.subrange(0, end as int) =~= want);
            }
            assert(lines.take(i + 1).drop_last() =~= lines.take(i as int));
            assert(lines.take(i + 1).last() == want);
            assert(r@ =~= before + prefix@ + want + seq!['\n']);
        }
        i = i + 1;
    }
    assert(lines.take(count as int) =~= lines);
    r
}

// ---------------------------------------------------------------------------
// What reaches the log
// ---------------------------------------------------------------------------

/// The completion marker, as characters.
pub open spec fn log_marker() -> Seq<char> {
    BUILD_MARKER@
}

/// The length of `s` up to and including its last newline (0 without one).
pub open spec fn complete_lines_len(s: Seq<char>) -> nat
    decreases s.len(),
{
    if s.len() == 0 {
        0
    } else if s.last() == '\n' {
        s.len()
    } else {
        complete_lines_len(s.drop_last())
    }
}

/// Whether a newline follows position `p` (inclusive) in `s`.
pub open spec fn has_newline_from(s: Seq<char>, p: int) -> bool {
    exists|j: int| p <= j < s.len() && #[trigger] s[j] == '\n'
}

/// Whether the stream `s` holds the marker on a complete line: its first
/// occurrence is followed by a newline.
pub open spec fn marker_seen(s: Seq<char>) -> bool {
    exists|p: int| #[trigger] is_first_occurrence(s, log_marker(), p) && has_newline_from(s, p)
}

/// Where the marker first occurs in `s`.
pub open spec fn marker_position(s: Seq<char>) -> int {
    choose|p: int| is_first_occurrence(s, log_marker(), p)
}

/// What of the stream `s` belongs in the log: everything before the marker
/// once the marker's line is complete; until then, every complete line.
pub open spec fn logged_text(s: Seq<char>) -> Seq<char> {
    if marker_seen(s) {
        s.take(marker_position(s))
    } else {
        s.take(complete_lines_len(s) as int)
    }
}

/// Whether `s` is empty or ends with a newline.
pub open spec fn ends_at_line_end(s: Seq<char>) -> bool {
    s.len() == 0 || s.last() == '\n'
}

/// Whether `m` holds no newline.
pub open spec fn newline_free(m: Seq<char>) -> bool {
    forall|t: int| 0 <= t < m.len() ==> #[trigger] m[t] != '\n'
}

proof fn lemma_marker_facts()
    ensures
        newline_free(log_marker()),
        log_marker().len() > 0,
        log_marker()[0] == '_',
{
    reveal_strlit("___MCP_BUILD_DONE___");
    assert(log_marker() == "___MCP_BUILD_DONE___"@);
}

/// An occurrence in `a + b` that ends within `a` is an occurrence in `a`.
proof fn lemma_occurs_in_prefix(a: Seq<char>, b: Seq<char>, m: Seq<char>, j: int)
    requires
        occurs_at(a + b, m, j),
        j + m.len() <= a.len(),
    ensures
        occurs_at(a, m, j),
{
    assert((a + b).subrange(j, j + m.len()) =~= a.subrange(j, j + m.len()));
}

proof fn lemma_complete_lines_len(e: Seq<char>, p: Seq<char>)
    requires
        ends_at_line_end(e),
        !p.contains('\n'),
    ensures
        complete_lines_len(e + p) == e.len(),
    decreases p.len(),
{
    if p.len() == 0 {
        assert(e + p =~= e);
        if e.len() > 0 {
            assert(e.last() == '\n');
        }
    } else {
        assert((e + p).drop_last() =~= e + p.drop_last());
        assert(p.last() == p[p.len() - 1]);
        assert(!p.drop_last().contains('\n')) by {
            if p.drop_last().contains('\n') {
                let k = choose|k: int| 0 <= k < p.drop_last().len() && p.drop_last()[k] == '\n';
                assert(p[k] == '\n');
            }
        }
        lemma_complete_lines_len(e, p.drop_last());
    }
}

/// Before the marker is seen: when the logged part `e` is free of the
/// marker and ends at a line end, and the rest `p` is one unfinished line,
/// the marker is not seen in `e + p` and exactly `e` is logged.
proof fn lemma_not_seen(e: Seq<char>, p: Seq<char>)
    requires
        !contains_seq(e, log_marker()),
        ends_at_line_end(e),
        !p.contains('\n'),
    ensures
        !marker_seen(e + p),
        logged_text(e + p) == e,
{
    let s = e + p;
    let m = log_marker();
    lemma_marker_facts();
    lemma_complete_lines_len(e, p);
    assert(s.take(e.len() as int) =~= e);
    if marker_seen(s) {
        let q = choose|q: int| #[trigger] is_first_occurrence(s, m, q) && has_newline_from(s, q);
        let j = choose|j: int| q <= j < s.len() && #[trigger] s[j] == '\n';
        if j >= e.len() {
            assert(p[j - e.len()] == '\n');
        } else if q + m.len() <= e.len() {
            lemma_occurs_in_prefix(e, p, m, q);
        } else {
            lemma_occurrence_avoids_newline(s, m, q, e.len() - 1);
        }
    }
}

/// Appending a marker-free complete line to a marker-free text that ends at
/// a line end keeps it marker-free.
proof fn lemma_append_line(e: Seq<char>, l: Seq<char>)
    requires
        !contains_seq(e, log_marker()),
        ends_at_line_end(e),
        !contains_seq(l, log_marker()),
    ensures
        !contains_seq(e + l, log_marker()),
{
    let s = e + l;
    let m = log_marker();
    lemma_marker_facts();
    if contains_seq(s, m) {
        let j = choose|j: int| #[trigger] occurs_at(s, m, j);
        if j + m.len() <= e.len() {
            lemma_occurs_in_prefix(e, l, m, j);
        } else if j >= e.len() {
            assert(s.subrange(j, j + m.len()) =~= l.subrange(j - e.len(), j - e.len() + m.len()));
            assert(occurs_at(l, m, j - e.len()));
        } else {
            lemma_occurrence_avoids_newline(s, m, j, e.len() - 1);
        }
    }
}

/// The marker found at `q` in the complete line `l` that follows the
/// logged part `e`: the marker is then seen in the stream, and what is
/// logged is `e` followed by the line up to the marker.
proof fn lemma_found(e: Seq<char>, l: Seq<char>, rest: Seq<char>, q: int)
    requires
        !contains_seq(e, log_marker()),
        ends_at_line_end(e),
        l.len() > 0,
        l.last() == '\n',
        is_first_occurrence(l, log_marker(), q),
    ensures
        marker_seen(e + l + rest),
        logged_text(e + l + rest) == e + l.take(q),
{
    let s = e + l + rest;
    let m = log_marker();
    let p = e.len() + q;
    lemma_marker_facts();
    assert(s.subrange(p, p + m.len()) =~= l.subrange(q, q + m.len()));
    assert forall|j: int| 0 <= j < p implies !#[trigger] occurs_at(s, m, j) by {
        if occurs_at(s, m, j) {
            if j + m.len() <= e.len() {
                assert(s =~= e + (l + rest));
                lemma_occurs_in_prefix(e, l + rest, m, j);
            } else if j < e.len() {
                lemma_occurrence_avoids_newline(s, m, j, e.len() - 1);
            } else if j + m.len() <= e.len() + l.len() {
                assert(s.subrange(j, j + m.len()) =~= l.subrange(j - e.len(), j - e.len() + m.len()));
                assert(occurs_at(l, m, j - e.len()));
            } else {
                assert(s[e.len() + l.len() - 1] == l.last());
                lemma_occurrence_avoids_newline(s, m, j, e.len() + l.len() - 1);
            }
        }
    }
    assert(is_first_occurrence(s, m, p));
    let nl = e.len() + l.len() - 1;
    assert(s[nl] == '\n');
    assert(has_newline_from(s, p));
    let chosen = marker_position(s);
    assert(is_first_occurrence(s, m, chosen));
    if chosen < p {
        assert(!occurs_at(s, m, chosen));
    }
    if p < chosen {
        assert(!occurs_at(s, m, p));
    }
    assert(s.take(p) =~= e + l.take(q));
}

/// Once the marker is seen, whatever output follows changes neither that
/// nor what is logged.
pub proof fn lemma_seen_stays(s: Seq<char>, c: Seq<char>)
    requires
        marker_seen(s),
    ensures
        marker_seen(s + c),
        logged_text(s + c) == logged_text(s),
{
    let m = log_marker();
    let t = s + c;
    let p = choose|p: int| #[trigger] is_first_occurrence(s, m, p) && has_newline_from(s, p);
    let j = choose|j: int| p <= j < s.len() && #[trigger] s[j] == '\n';
    assert(t.subrange(p, p + m.len()) =~= s.subrange(p, p + m.len()));
    assert forall|k: int| 0 <= k < p implies !#[trigger] occurs_at(t, m, k) by {
        if occurs_at(t, m, k) {
            lemma_occurs_in_prefix(s, c, m, k);
        }
    }
    assert(is_first_occurrence(t, m, p));
    assert(t[j] == '\n');
    assert(has_newline_from(t, p));
    let a = marker_position(s);
    let b = marker_position(t);
    assert(is_first_occurrence(s, m, a));
    assert(is_first_occurrence(t, m, b));
    if a < p {
        assert(!occurs_at(s, m, a));
    }
    if p < a {
        assert(!occurs_at(s, m, p));
    }
    if b < p {
        assert(!occurs_at(t, m, b));
    }
    if p < b {
        assert(!occurs_at(t, m, p));
    }
    assert(t.take(p) =~= s.take(p));
}

/// The log gathers complete lines of the build output and hands them out in
/// batches; the completion marker and what follows it are never logged.

// ---------------------------------------------------------------------------
// Cutting at the marker
// ---------------------------------------------------------------------------

/// Where `m` first occurs in `s` (meaningful when it occurs).
pub open spec fn first_index(s: Seq<char>, m: Seq<char>) -> int {
    choose|p: int| is_first_occurrence(s, m, p)
}

/// `s` up to the first occurrence of the marker; all of `s` without one.
pub open spec fn before_marker(s: Seq<char>) -> Seq<char> {
    if contains_seq(s, log_marker()) {
        s.take(first_index(s, log_marker()))
    } else {
        s
    }
}

/// An occurrence in `a + b` that starts within `b` is an occurrence in `b`.
proof fn lemma_occurs_in_suffix(a: Seq<char>, b: Seq<char>, m: Seq<char>, j: int)
    requires
        occurs_at(a + b, m, j),
        j >= a.len(),
    ensures
        occurs_at(b, m, j - a.len()),
{
    assert((a + b).subrange(j, j + m.len()) =~= b.subrange(j - a.len(), j - a.len() + m.len()));
}

/// A text without the marker, followed by a newline, is still without it.
proof fn lemma_push_newline_marker_free(x: Seq<char>)
    requires
        !contains_seq(x, log_marker()),
    ensures
        !contains_seq(x.push('\n'), log_marker()),
{
    let m = log_marker();
    lemma_marker_facts();
    let y = x.push('\n');
    if contains_seq(y, m) {
        let j = choose|j: int| #[trigger] occurs_at(y, m, j);
        if j + m.len() <= x.len() {
            assert(y =~= x + seq!['\n']);
            lemma_occurs_in_prefix(x, seq!['\n'], m, j);
        } else {
            lemma_occurrence_avoids_newline(y, m, j, x.len() as int);
        }
    }
}

/// A piece of a marker-free text is marker-free.
proof fn lemma_subrange_marker_free(s: Seq<char>, a: int, b: int)
    requires
        !contains_seq(s, log_marker()),
        0 <= a <= b <= s.len(),
    ensures
        !contains_seq(s.subrange(a, b), log_marker()),
{
    let m = log_marker();
    let t = s.subrange(a, b);
    if contains_seq(t, m) {
        let j = choose|j: int| #[trigger] occurs_at(t, m, j);
        assert(s.subrange(a + j, a + j + m.len()) =~= t.subrange(j, j + m.len()));
        assert(occurs_at(s, m, a + j));
    }
}

/// The marker's first occurrence is where `first_index` points.
proof fn lemma_first_index(s: Seq<char>, m: Seq<char>, p: int)
    requires
        is_first_occurrence(s, m, p),
    ensures
        first_index(s, m) == p,
{
    let c = first_index(s, m);
    assert(is_first_occurrence(s, m, c));
    if c < p {
        assert(!occurs_at(s, m, c));
    }
    if p < c {
        assert(!occurs_at(s, m, p));
    }
}

/// What is kept before the marker holds no marker.
proof fn lemma_before_marker_free(s: Seq<char>)
    ensures
        !contains_seq(before_marker(s), log_marker()),
        before_marker(s).len() <= s.len(),
{
    let m = log_marker();
    lemma_marker_facts();
    if contains_seq(s, m) {
        let j = choose|j: int| #[trigger] occurs_at(s, m, j);
        lemma_first_occurrence_exists(s, m, j);
        let p = first_index(s, m);
        assert(is_first_occurrence(s, m, p));
        let t = s.take(p);
        if contains_seq(t, m) {
            let k = choose|k: int| #[trigger] occurs_at(t, m, k);
            assert(s.subrange(k, k + m.len()) =~= t.subrange(k, k + m.len()));
            assert(!occurs_at(s, m, k));
        }
    }
}

// ---------------------------------------------------------------------------
// What is written holds no marker
// ---------------------------------------------------------------------------

/// The pieces of a marker-free text hold neither the marker nor the
/// separator, and the last piece is the end of the text.
proof fn lemma_split_pieces_marker_free(s: Seq<char>)
    requires
        !contains_seq(s, log_marker()),
    ensures
        forall|i: int|
            0 <= i < split_on(s, '\n').len() ==> !contains_seq(
                #[trigger] split_on(s, '\n')[i],
                log_marker(),
            ) && !split_on(s, '\n')[i].contains('\n'),
        split_on(s, '\n').last().len() <= s.len(),
        split_on(s, '\n').last() == s.skip(s.len() - split_on(s, '\n').last().len()),
    decreases s.len(),
{
    let ps = split_on(s, '\n');
    lemma_split_on_nonempty(s, '\n');
    if s.len() == 0 {
        assert(s.skip(0) =~= Seq::<char>::empty());
        assert forall|j: int| !#[trigger] occurs_at(Seq::<char>::empty(), log_marker(), j) by {
            lemma_marker_facts();
        }
    } else {
        let init = s.drop_last();
        let c = s.last();
        lemma_subrange_marker_free(s, 0, s.len() - 1);
        assert(s.subrange(0, s.len() - 1) =~= init);
        lemma_split_pieces_marker_free(init);
        lemma_split_on_nonempty(init, '\n');
        let qs = split_on(init, '\n');
        let last = qs.last();
        // The last piece of `init` ends `init`, so it holds no marker.
        lemma_subrange_marker_free(init, init.len() - last.len(), init.len() as int);
        assert(init.subrange(init.len() - last.len(), init.len() as int) =~= last);
        if c == '\n' {
            assert(ps =~= qs.push(Seq::empty()));
            assert(s.skip(s.len() as int) =~= Seq::<char>::empty());
            assert forall|i: int| 0 <= i < ps.len() implies !contains_seq(
                #[trigger] ps[i],
                log_marker(),
            ) && !ps[i].contains('\n') by {
                if i == ps.len() - 1 {
                    lemma_marker_facts();
                    assert forall|j: int| !#[trigger] occurs_at(ps[i], log_marker(), j) by {}
                } else {
                    assert(ps[i] == qs[i]);
                }
            }
        } else {
            let nl = last.push(c);
            assert(ps =~= qs.update(qs.len() - 1, nl));
            assert(s.skip(s.len() - nl.len()) =~= init.skip(init.len() - last.len()).push(c));
            lemma_subrange_marker_free(s, s.len() - nl.len(), s.len() as int);
            assert(s.subrange(s.len() - nl.len(), s.len() as int) =~= nl);
            assert forall|i: int| 0 <= i < ps.len() implies !contains_seq(
                #[trigger] ps[i],
                log_marker(),
            ) && !ps[i].contains('\n') by {
                if i == ps.len() - 1 {
                    if nl.contains('\n') {
                        let k = choose|k: int| 0 <= k < nl.len() && nl[k] == '\n';
                        if k < last.len() {
                            assert(last[k] == '\n');
                        }
                    }
                } else {
                    assert(ps[i] == qs[i]);
                }
            }
        }
    }
}

/// The lines `str::lines` gives of a marker-free text hold neither the
/// marker nor a newline.
proof fn lemma_text_lines_marker_free(s: Seq<char>)
    requires
        !contains_seq(s, log_marker()),
    ensures
        forall|i: int|
            0 <= i < text_lines(s).len() ==> !contains_seq(
                #[trigger] text_lines(s)[i],
                log_marker(),
            ) && !text_lines(s)[i].contains('\n'),
{
    lemma_split_pieces_marker_free(s);
    let ps = split_on(s, '\n');
    assert forall|i: int| 0 <= i < text_lines(s).len() implies !contains_seq(
        #[trigger] text_lines(s)[i],
        log_marker(),
    ) && !text_lines(s)[i].contains('\n') by {
        let p = ps[i];
        assert(!contains_seq(p, log_marker()) && !p.contains('\n'));
        if text_lines(s)[i] != p {
            assert(text_lines(s)[i] == p.drop_last());
            lemma_subrange_marker_free(p, 0, p.len() - 1);
            assert(p.subrange(0, p.len() - 1) =~= p.drop_last());
            if p.drop_last().contains('\n') {
                let k = choose|k: int| 0 <= k < p.drop_last().len() && p.drop_last()[k] == '\n';
                assert(p[k] == '\n');
            }
        }
    }
}

/// A line stamp holds no `_`, the first character of the marker.
proof fn lemma_line_stamp_no_underscore(stamp: Seq<char>)
    requires
        is_line_stamp(stamp),
    ensures
        forall|i: int| 0 <= i < stamp.len() ==> #[trigger] stamp[i] != '_',
{
    reveal_strlit("-dd-dd dd:dd:dd");
    let n = stamp.len() - 15;
    let y = stamp.take(n);
    let t = stamp.skip(n);
    let shape = "-dd-dd dd:dd:dd"@;
    assert forall|i: int| 0 <= i < stamp.len() implies #[trigger] stamp[i] != '_' by {
        if i < n {
            assert(y[i] == stamp[i]);
            if y.len() == 4 {
                assert(is_ascii_digit(y[i]));
            } else if i > 0 {
                assert(y.drop_first()[i - 1] == y[i]);
                assert(is_ascii_digit(y.drop_first()[i - 1]));
            }
        } else {
            assert(t[i - n] == stamp[i]);
            assert(shape[i - n] != '_');
            if shape[i - n] == 'd' {
                assert(is_ascii_digit(t[i - n]));
            }
        }
    }
}

/// Stamped marker-free lines hold no marker when the prefix holds no `_`.
proof fn lemma_stamped_marker_free(lines: Seq<Seq<char>>, prefix: Seq<char>)
    requires
        forall|i: int|
            0 <= i < lines.len() ==> !contains_seq(#[trigger] lines[i], log_marker()) && !lines[i].contains(
                '\n',
            ),
        forall|i: int| 0 <= i < prefix.len() ==> #[trigger] prefix[i] != '_',
    ensures
        !contains_seq(stamped_lines(lines, prefix), log_marker()),
        ends_at_line_end(stamped_lines(lines, prefix)),
    decreases lines.len(),
{
    let m = log_marker();
    lemma_marker_facts();
    if lines.len() == 0 {
        let e = Seq::<char>::empty();
        assert forall|j: int| !#[trigger] occurs_at(e, m, j) by {}
    } else {
        let init = lines.drop_last();
        assert forall|i: int| 0 <= i < init.len() implies !contains_seq(#[trigger] init[i], m)
            && !init[i].contains('\n') by {
            assert(init[i] == lines[i]);
        }
        lemma_stamped_marker_free(init, prefix);
        let l = lines.last();
        assert(l == lines[lines.len() - 1]);
        lemma_push_newline_marker_free(l);
        let tail = l.push('\n');
        let seg = prefix + tail;
        if contains_seq(seg, m) {
            let j = choose|j: int| #[trigger] occurs_at(seg, m, j);
            if j < prefix.len() {
                assert(seg.subrange(j, j + m.len())[0] == seg[j]);
                assert(seg[j] == prefix[j]);
            } else {
                lemma_occurs_in_suffix(prefix, tail, m, j);
            }
        }
        let x = stamped_lines(init, prefix);
        assert(stamped_lines(lines, prefix) =~= x + seg);
        lemma_append_line(x, seg);
    }
}

pub struct LogBuffer {
    pending: Vec<char>,
    partial: Vec<char>,
    done: bool,
    enabled: bool,
    marker: Vec<char>,
    received: Ghost<Seq<char>>,
    handed_out: Ghost<Seq<char>>,
}

impl LogBuffer {
    /// The buffer's internal consistency, which every operation keeps.
    pub closed spec fn wf(self) -> bool {
        &&& self.marker@ == log_marker()
        &&& self.handed_out@ + self.pending@ == logged_text(self.received@)
        &&& self.done == marker_seen(self.received@)
        &&& !self.done ==> {
            &&& logged_text(self.received@) + self.partial@ == self.received@
            &&& !self.partial@.contains('\n')
            &&& !contains_seq(logged_text(self.received@), log_marker())
            &&& ends_at_line_end(logged_text(self.received@))
        }
    }

    /// All the output taken in while the log was enabled.
    pub closed spec fn received(self) -> Seq<char> {
        self.received@
    }

    /// What has been handed out in batches so far.
    pub closed spec fn handed_out(self) -> Seq<char> {
        self.handed_out@
    }

    /// The complete lines gathered and not yet handed out.
    pub closed spec fn pending_text(self) -> Seq<char> {
        self.pending@
    }

    /// The unfinished last line (meaningless once the marker is seen).
    pub closed spec fn unfinished_line(self) -> Seq<char> {
        self.partial@
    }

    /// Whether the marker has been seen.
    pub closed spec fn is_done(self) -> bool {
        self.done
    }

    /// Whether the log still takes output (it stops after a write failure).
    pub closed spec fn is_enabled(self) -> bool {
        self.enabled
    }

    /// Everything that has reached the log: handed out plus pending.
    pub open spec fn logged(self) -> Seq<char> {
        self.handed_out() + self.pending_text()
    }

    /// The log is what `logged_text` keeps of the output taken in, and the
    /// marker is seen exactly when that output holds it on a complete line.
    pub proof fn lemma_logged_is_logged_text(&self)
        requires
            self.wf(),
        ensures
            self.logged() == logged_text(self.received()),
            self.is_done() == marker_seen(self.received()),
            !self.is_done() ==> logged_text(self.received()) + self.unfinished_line()
                == self.received(),
    {
    }

    /// An empty, enabled log.
    pub fn new() -> (r: LogBuffer)
        ensures
            r.wf(),
            r.received() == Seq::<char>::empty(),
            r.handed_out() == Seq::<char>::empty(),
            r.pending_text() == Seq::<char>::empty(),
            r.unfinished_line() == Seq::<char>::empty(),
            !r.is_done(),
            r.is_enabled(),
    {
        proof {
            let e = Seq::<char>::empty();
            lemma_marker_facts();
            assert forall|j: int| !#[trigger] occurs_at(e, log_marker(), j) by {}
            lemma_not_seen(e, e);
            assert(e + e =~= e);
        }
        LogBuffer {
            pending: Vec::new(),
            partial: Vec::new(),
            done: false,
            enabled: true,
            marker: chars_of(BUILD_MARKER),
            received: Ghost(Seq::empty()),
            handed_out: Ghost(Seq::empty()),
        }
    }

    /// Whether the log still takes output.
    pub fn enabled(&self) -> (b: bool)
        ensures
            b == self.is_enabled(),
    {
        self.enabled
    }

    /// Whether no complete line waits to be handed out.
    pub fn pending_is_empty(&self) -> (b: bool)
        ensures
            b == (self.pending_text().len() == 0),
    {
        self.pending.len() == 0
    }

    /// Takes in a chunk of output: complete lines join the pending batch, an
    /// unfinished line waits for the next chunk; the line holding the marker
    /// is cut before the marker and ends the log. Nothing changes once the
    /// log is disabled.
    pub fn write_chunk(&mut self, chunk: &str)
        requires
            old(self).wf(),
        ensures
            final(self).wf(),
            old(self).is_enabled() ==> final(self).received() == old(self).received() + chunk@,
            !old(self).is_enabled() ==> final(self).received() == old(self).received(),
            !old(self).is_enabled() ==> final(self).pending_text() == old(self).pending_text(),
            final(self).is_enabled() == old(self).is_enabled(),
            final(self).handed_out() == old(self).handed_out(),
            final(self).logged() == logged_text(final(self).received()),
            final(self).is_done() == marker_seen(final(self).received()),
            !final(self).is_done() ==> logged_text(final(self).received())
                + final(self).unfinished_line() == final(self).received(),
    {
        if !self.enabled {
            return;
        }
        if self.done {
            proof {
                lemma_seen_stays(self.received@, chunk@);
            }
            self.received = Ghost(self.received@ + chunk@);
            return;
        }
        let chunk_chars = chars_of(chunk);
        let ghost old_received = self.received@;
        let ghost emitted0 = logged_text(old_received);
        let mut buffer = self.partial.clone();
        let mut k: usize = 0;
        while k < chunk_chars.len()
            invariant
                k <= chunk_chars@.len(),
                buffer@ == self.partial@ + chunk_chars@.take(k as int),
            decreases chunk_chars.len() - k,
        {
            buffer.push(chunk_chars[k]);
            assert(chunk_chars@.take(k + 1) =~= chunk_chars@.take(k as int).push(chunk_chars@[k as int]));
            k = k + 1;
        }
        assert(chunk_chars@.take(chunk_chars@.len() as int) =~= chunk@);
        let ghost total = old_received + chunk@;
        assert(emitted0 + buffer@ =~= total);
        let mut pending = self.pending.clone();
        let mut start: usize = 0;
        let mut done = false;
        let mut i: usize = 0;
        // `emitted` is what has reached the log so far: everything handed out
        // plus `pending`; `buffer[start..]` is not yet decided.
        while i < buffer.len()
            invariant_except_break
                !done,
                start <= i <= buffer@.len(),
                self.handed_out@ + pending@ + buffer@.skip(start as int) == total,
                !contains_seq(self.handed_out@ + pending@, log_marker()),
                ends_at_line_end(self.handed_out@ + pending@),
                forall|t: int| start <= t < i ==> buffer@[t] != '\n',
                self.marker@ == log_marker(),
            ensures
                done ==> {
                    &&& start <= buffer@.len()
                    &&& marker_seen(total)
                    &&& logged_text(total) == self.handed_out@ + pending@
                },
                !done ==> {
                    &&& start <= buffer@.len()
                    &&& self.handed_out@ + pending@ + buffer@.skip(start as int) == total
                    &&& !contains_seq(self.handed_out@ + pending@, log_marker())
                    &&& ends_at_line_end(self.handed_out@ + pending@)
                    &&& forall|t: int| start <= t < buffer@.len() ==> buffer@[t] != '\n'
                },
            decreases buffer.len() - i,
        {
            if buffer[i] == '\n' {
                let ghost e = self.handed_out@ + pending@;
                let ghost line = buffer@.subrange(start as int, i + 1);
                let ghost rest = buffer@.skip(i + 1);
                assert(buffer@.skip(start as int) =~= line + rest);
                assert(line.last() == '\n');
                match find_in_range(buffer.as_slice(), start, i + 1, self.marker.as_slice()) {
                    Some(q) => {
                        proof {
                            lemma_found(e, line, rest, q as int);
                            assert(total =~= e + line + rest);
                        }
                        let ghost before = pending@;
                        push_chars(&mut pending, buffer.as_slice(), start, start + q);
                        assert(buffer@.subrange(start as int, start + q) =~= line.take(q as int));
                        assert(self.handed_out@ + pending@ =~= e + line.take(q as int));
                        start = i + 1;
                        done = true;
                        break;
                    },
                    None => {
                        proof {
                            lemma_append_line(e, line);
                        }
                        push_chars(&mut pending, buffer.as_slice(), start, i + 1);
                        assert(self.handed_out@ + pending@ =~= e + line);
                        assert(buffer@.skip(i + 1) == rest);
                        assert(e + line + rest =~= total);
                        start = i + 1;
                    },
                }
            }
            i = i + 1;
        }
        let mut rest_chars: Vec<char> = Vec::new();
        let mut t = start;
        while t < buffer.len()
            invariant
                start <= t <= buffer@.len(),
                rest_chars@ == buffer@.subrange(start as int, t as int),
            decreases buffer.len() - t,
        {
            rest_chars.push(buffer[t]);
            assert(buffer@.subrange(start as int, t + 1) =~= buffer@.subrange(start as int, t as int).push(buffer@[t as int]));
            t = t + 1;
        }
        proof {
            if !done {
                assert(rest_chars@ =~= buffer@.skip(start as int));
                assert(!rest_chars@.contains('\n')) by {
                    if rest_chars@.contains('\n') {
                        let k = choose|k: int| 0 <= k < rest_chars@.len() && rest_chars@[k] == '\n';
                        assert(buffer@[start + k] == '\n');
                    }
                }
                lemma_not_seen(self.handed_out@ + pending@, rest_chars@);
            }
        }
        self.pending = pending;
        self.partial = rest_chars;
        self.done = done;
        self.received = Ghost(total);
    }

    /// Completes an unfinished last line with a newline, so that it reaches
    /// the log too (unless the marker was seen or the log is disabled).
    pub fn finish_partial(&mut self)
        requires
            old(self).wf(),
        ensures
            final(self).wf(),
            ({
                let added = if old(self).is_enabled() && old(self).unfinished_line().len() > 0 {
                    seq!['\n']
                } else {
                    Seq::empty()
                };
                final(self).received() == old(self).received() + added
            }),
            final(self).is_enabled() == old(self).is_enabled(),
            final(self).handed_out() == old(self).handed_out(),
            final(self).logged() == logged_text(final(self).received()),
            final(self).is_done() == marker_seen(final(self).received()),
            final(self).is_enabled() && !final(self).is_done() ==> final(self).logged()
                == final(self).received(),
    {
        if self.partial.len() > 0 {
            proof {
                reveal_strlit("\n");
                assert("\n"@ =~= seq!['\n']);
            }
            self.write_chunk("\n");
        } else {
            assert(old(self).received() + Seq::<char>::empty() =~= old(self).received());
        }
        proof {
            if self.enabled && !self.done {
                assert(!self.partial@.contains('\n'));
            }
        }
    }
}


impl LogBuffer {
    /// Hands out the pending lines: they count as written from now on.
    pub fn clear_pending(&mut self)
        requires
            old(self).wf(),
        ensures
            final(self).wf(),
            final(self).handed_out() == old(self).handed_out() + old(self).pending_text(),
            final(self).pending_text() == Seq::<char>::empty(),
            final(self).received() == old(self).received(),
            final(self).unfinished_line() == old(self).unfinished_line(),
            final(self).is_done() == old(self).is_done(),
            final(self).is_enabled() == old(self).is_enabled(),
    {
        self.handed_out = Ghost(self.handed_out@ + self.pending@);
        self.pending = Vec::new();
        assert(self.handed_out@ + self.pending@ =~= old(self).handed_out@ + old(self).pending@);
    }

    /// Stops taking output (after the log file could not be written).
    pub fn disable(&mut self)
        requires
            old(self).wf(),
        ensures
            final(self).wf(),
            !final(self).is_enabled(),
            final(self).received() == old(self).received(),
            final(self).handed_out() == old(self).handed_out(),
            final(self).pending_text() == old(self).pending_text(),
            final(self).unfinished_line() == old(self).unfinished_line(),
            final(self).is_done() == old(self).is_done(),
    {
        self.enabled = false;
    }

    /// The pending lines as they are written to the log file. The batch is
    /// cleaned as a whole by [`sanitize`]; when the cleaned text holds the
    /// marker, it is cut before it, and the log ends and takes no more
    /// output. Each line of what remains is prefixed with `[<local time>] `
    /// in `YYYY-MM-DD HH:MM:SS` form (one time for the whole batch) and
    /// ended with a newline. `None` when the clock cannot be read as a date.
    /// What is written never holds the marker and ends at a line end.
    pub fn timed_batch(&mut self) -> (r: Option<String>)
        requires
            old(self).wf(),
        ensures
            final(self).wf(),
            final(self).received() == old(self).received(),
            final(self).handed_out() == old(self).handed_out(),
            final(self).pending_text() == old(self).pending_text(),
            final(self).unfinished_line() == old(self).unfinished_line(),
            final(self).is_done() == old(self).is_done(),
            final(self).is_enabled() == (old(self).is_enabled() && !batch_text(
                old(self).pending_text(),
            ).1),
            r matches Some(t) ==> {
                &&& exists|stamp: Seq<char>|
                    is_line_stamp(stamp) && t@ == stamped_lines(
                        text_lines(batch_text(old(self).pending_text()).0),
                        "["@ + stamp + "] "@,
                    )
                &&& !contains_seq(t@, log_marker())
                &&& ends_at_line_end(t@)
            },
    {
        let raw = string_of(self.pending.as_slice());
        let clean = sanitize(raw.as_str());
        let cc = chars_of(clean.as_str());
        assert(cc@.subrange(0, cc@.len() as int) =~= cc@);
        let cut = match find_in_range(cc.as_slice(), 0, cc.len(), self.marker.as_slice()) {
            Some(q) => {
                proof {
                    lemma_first_index(cc@, log_marker(), q as int);
                }
                self.enabled = false;
                copy_chars(cc.as_slice(), 0, q)
            },
            None => cc,
        };
        let batch = string_of(cut.as_slice());
        proof {
            lemma_before_marker_free(clean@);
            assert(batch@ == batch_text(old(self).pending@).0);
        }
        match now_text(LOG_LINE_TIMESTAMP_FMT) {
            Some(stamp) => {
                let mut prefix = String::from_str("[");
                push_str(&mut prefix, stamp.as_str());
                push_str(&mut prefix, "] ");
                let r = stamp_lines(batch.as_str(), prefix.as_str());
                proof {
                    let s = stamp@;
                    assert(is_line_stamp(s));
                    lemma_text_lines_marker_free(batch@);
                    lemma_line_stamp_no_underscore(s);
                    reveal_strlit("[");
                    reveal_strlit("] ");
                    assert forall|i: int| 0 <= i < prefix@.len() implies #[trigger] prefix@[i] != '_' by {
                        if 0 < i && i < prefix@.len() - 2 {
                            assert(prefix@[i] == s[i - 1]);
                        }
                    }
                    lemma_stamped_marker_free(text_lines(batch@), prefix@);
                }
                Some(r)
            },
            None => None,
        }
    }
}

/// A batch of gathered lines as it is written: cleaned as a whole by
/// [`sanitize`], and cut before the marker when the cleaned text holds it;
/// with whether it was cut there (the log then ends).
pub open spec fn batch_text(p: Seq<char>) -> (Seq<char>, bool) {
    let c = sanitized(p);
    if contains_seq(c, log_marker()) {
        (before_marker(c), true)
    } else {
        (c, false)
    }
}

/// `v[from..to]` as a new vector.
fn copy_chars(v: &[char], from: usize, to: usize) -> (r: Vec<char>)
    requires
        from <= to <= v@.len(),
    ensures
        r@ == v@.subrange(from as int, to as int),
{
    let mut r: Vec<char> = Vec::new();
    push_chars(&mut r, v, from, to);
    r
}

/// The batches `batches` written one after another.
pub open spec fn concat_all(batches: Seq<Seq<char>>) -> Seq<char>
    decreases batches.len(),
{
    if batches.len() == 0 {
        Seq::empty()
    } else {
        concat_all(batches.drop_last()) + batches.last()
    }
}

/// Batches written one after another, each free of the marker and ended at
/// a line end (as every batch from [`LogBuffer::timed_batch`] is), make a log
/// file free of the marker.
pub proof fn lemma_log_file_marker_free(batches: Seq<Seq<char>>)
    requires
        forall|i: int|
            0 <= i < batches.len() ==> !contains_seq(#[trigger] batches[i], log_marker())
                && ends_at_line_end(batches[i]),
    ensures
        !contains_seq(concat_all(batches), log_marker()),
        ends_at_line_end(concat_all(batches)),
    decreases batches.len(),
{
    lemma_marker_facts();
    if batches.len() == 0 {
        let e = Seq::<char>::empty();
        assert forall|j: int| !#[trigger] occurs_at(e, log_marker(), j) by {}
    } else {
        let init = batches.drop_last();
        assert forall|i: int| 0 <= i < init.len() implies !contains_seq(#[trigger] init[i], log_marker())
            && ends_at_line_end(init[i]) by {
            assert(init[i] == batches[i]);
        }
        lemma_log_file_marker_free(init);
        let last = batches[batches.len() - 1];
        lemma_append_line(concat_all(init), last);
        if last.len() == 0 {
            assert(concat_all(init) + last =~= concat_all(init));
        }
    }
}

// ---------------------------------------------------------------------------
// Laws of the log
// ---------------------------------------------------------------------------

proof fn lemma_complete_lines_len_bounds(s: Seq<char>)
    ensures
        complete_lines_len(s) <= s.len(),
        complete_lines_len(s) > 0 ==> s[complete_lines_len(s) - 1] == '\n',
    decreases s.len(),
{
    if s.len() > 0 && s.last() != '\n' {
        lemma_complete_lines_len_bounds(s.drop_last());
    }
}

proof fn lemma_complete_lines_len_mono(s: Seq<char>, c: Seq<char>)
    ensures
        complete_lines_len(s) <= complete_lines_len(s + c),
    decreases c.len(),
{
    if c.len() == 0 {
        assert(s + c =~= s);
    } else {
        assert((s + c).drop_last() =~= s + c.drop_last());
        lemma_complete_lines_len_mono(s, c.drop_last());
        lemma_complete_lines_len_bounds(s);
        lemma_complete_lines_len_bounds(s + c);
    }
}

/// The log is the beginning of the stream.
pub proof fn lemma_logged_is_prefix(s: Seq<char>)
    ensures
        logged_text(s).len() <= s.len(),
        logged_text(s) == s.take(logged_text(s).len() as int),
{
    lemma_complete_lines_len_bounds(s);
    if marker_seen(s) {
        let p = choose|p: int| #[trigger] is_first_occurrence(s, log_marker(), p) && has_newline_from(s, p);
        assert(is_first_occurrence(s, log_marker(), marker_position(s)));
    }
}

/// The completion marker never reaches the log.
pub proof fn lemma_log_never_holds_marker(s: Seq<char>)
    ensures
        !contains_seq(logged_text(s), log_marker()),
{
    let m = log_marker();
    let l = logged_text(s);
    lemma_marker_facts();
    lemma_logged_is_prefix(s);
    if contains_seq(l, m) {
        let j = choose|j: int| #[trigger] occurs_at(l, m, j);
        assert(s.subrange(j, j + m.len()) =~= l.subrange(j, j + m.len()));
        assert(occurs_at(s, m, j));
        if marker_seen(s) {
            let p = marker_position(s);
            let q = choose|q: int| #[trigger] is_first_occurrence(s, m, q) && has_newline_from(s, q);
            assert(is_first_occurrence(s, m, p));
            assert(!occurs_at(s, m, j));
        } else {
            lemma_complete_lines_len_bounds(s);
            lemma_first_occurrence_exists(s, m, j);
            let p = choose|p: int| p <= j && #[trigger] is_first_occurrence(s, m, p);
            let n = complete_lines_len(s) - 1;
            assert(s[n] == '\n');
            assert(has_newline_from(s, p));
        }
    }
}

/// What is logged only ever grows as the stream goes on: the log of a
/// stream is the beginning of the log of any longer stream.
pub proof fn lemma_logged_grows(s: Seq<char>, c: Seq<char>)
    ensures
        logged_text(s).len() <= logged_text(s + c).len(),
        logged_text(s + c).take(logged_text(s).len() as int) == logged_text(s),
{
    let m = log_marker();
    let t = s + c;
    lemma_marker_facts();
    lemma_logged_is_prefix(s);
    lemma_logged_is_prefix(t);
    if marker_seen(s) {
        lemma_seen_stays(s, c);
    } else {
        lemma_complete_lines_len_bounds(s);
        lemma_complete_lines_len_bounds(t);
        lemma_complete_lines_len_mono(s, c);
        let k = complete_lines_len(s) as int;
        if marker_seen(t) {
            let p = marker_position(t);
            let q = choose|q: int| #[trigger] is_first_occurrence(t, m, q) && has_newline_from(t, q);
            assert(is_first_occurrence(t, m, p));
            if p < k {
                if p + m.len() <= s.len() {
                    lemma_occurs_in_prefix(s, c, m, p);
                    lemma_first_occurrence_exists(s, m, p);
                    let p0 = choose|p0: int| p0 <= p && #[trigger] is_first_occurrence(s, m, p0);
                    assert(s[k - 1] == '\n');
                    assert(has_newline_from(s, p0));
                } else {
                    assert(t[k - 1] == s[k - 1]);
                    lemma_occurrence_avoids_newline(t, m, p, k - 1);
                }
            }
            assert(t.take(p).take(k) =~= s.take(k));
        } else {
            assert(t.take(complete_lines_len(t) as int).take(k) =~= s.take(k));
        }
    }
}

/// How the output was cut into chunks does not matter: two logs that took in
/// the same output hold the same text and agree on whether the marker was seen.
pub proof fn lemma_chunking_irrelevant(a: LogBuffer, b: LogBuffer)
    requires
        a.wf(),
        b.wf(),
        a.received() == b.received(),
    ensures
        a.logged() == b.logged(),
        a.is_done() == b.is_done(),
{
}

/// Appends `v[from..to]` to `dst`.
fn push_chars(dst: &mut Vec<char>, v: &[char], from: usize, to: usize)
    requires
        from <= to <= v@.len(),
    ensures
        final(dst)@ == old(dst)@ + v@.subrange(from as int, to as int),
{
    let mut k = from;
    while k < to
        invariant
            from <= k <= to <= v@.len(),
            dst@ == old(dst)@ + v@.subrange(from as int, k as int),
        decreases to - k,
    {
        dst.push(v[k]);
        assert(v@.subrange(from as int, k + 1) =~= v@.subrange(from as int, k as int).push(v@[k as int]));
        k = k + 1;
    }
}

} // verus!

//! Cleaning of terminal output: line endings are normalised and ANSI escape
//! sequences and control characters are removed.

use vstd::prelude::*;

use crate::pattern::{compile, regex_compiles, regex_replace_all, replace_all};
use crate::text::{chars_of, push_char};

verus! {

/// ANSI CSI sequences: `ESC [`, parameters, a letter (colours, cursor moves).
pub const CSI_PATTERN: &'static str = "\x1b\\[[0-9;]*[A-Za-z]";

/// ANSI OSC sequences: `ESC ]` up to `BEL` (window titles and the like).
pub const OSC_PATTERN: &'static str = "\x1b\\][^\x07]*\x07";

/// Other ANSI sequences: `ESC`, one character other than `[` (so that CSI
/// sequences are not matched twice), parameters, a letter (such as `ESC ( B`).
pub const OTHER_ANSI_PATTERN: &'static str = "\\x1b[^\\[][0-9;]*[A-Za-z]";

/// Control characters other than `\n` and `\t`.
pub const CONTROL_PATTERN: &'static str = "[\x00-\x08\x0B\x0C\x0E-\x1F]";

/// `s` with every `\r\n` turned into `\n` and every other `\r` into `\n`
/// (`replace("\r\n", "\n").replace('\r', "\n")`).
pub open spec fn crlf_normalized(s: Seq<char>) -> Seq<char>
    decreases s.len(),
{
    if s.len() == 0 {
        Seq::empty()
    } else if s[0] == '\r' && s.len() > 1 && s[1] == '\n' {
        crlf_normalized(s.drop_first())
    } else if s[0] == '\r' {
        seq!['\n'] + crlf_normalized(s.drop_first())
    } else {
        seq![s[0]] + crlf_normalized(s.drop_first())
    }
}

/// `s` with every match of `pattern` removed, or `s` itself when the pattern
/// does not compile.
pub open spec fn removed_matches(pattern: Seq<char>, s: Seq<char>) -> Seq<char> {
    if regex_compiles(pattern) {
        regex_replace_all(pattern, s, Seq::empty())
    } else {
        s
    }
}

/// The cleaned text: line endings normalised, then CSI, OSC and other ANSI
/// sequences and control characters removed, in that order.
pub open spec fn sanitized(raw: Seq<char>) -> Seq<char> {
    removed_matches(
        CONTROL_PATTERN@,
        removed_matches(
            OTHER_ANSI_PATTERN@,
            removed_matches(OSC_PATTERN@, removed_matches(CSI_PATTERN@, crlf_normalized(raw))),
        ),
    )
}

proof fn lemma_crlf_normalized_len(s: Seq<char>)
    ensures
        crlf_normalized(s).len() <= s.len(),
    decreases s.len(),
{
    if s.len() > 0 {
        lemma_crlf_normalized_len(s.drop_first());
    }
}

/// Turns `\r\n` and lone `\r` into `\n`, the first step of [`sanitize`].
pub fn normalize_line_endings(raw: &str) -> (r: String)
    ensures
        r@ == crlf_normalized(raw@),
{
    let v = chars_of(raw);
    let mut out = String::new();
    let mut i: usize = 0;
    assert(v@.skip(0) =~= v@);
    while i < v.len()
        invariant
            i <= v@.len(),
            v@ == raw@,
            out@ + crlf_normalized(v@.skip(i as int)) == crlf_normalized(v@),
        decreases v.len() - i,
    {
        let ghost rest = v@.skip(i as int);
        assert(rest.drop_first() =~= v@.skip(i + 1));
        let c = v[i];
        if c == '\r' {
            if i + 1 < v.len() && v[i + 1] == '\n' {
                assert(rest[1] == v@[i + 1]);
            } else {
                push_char(&mut out, '\n');
                assert(out@ + crlf_normalized(v@.skip(i + 1)) =~= crlf_normalized(v@));
            }
        } else {
            push_char(&mut out, c);
        }
        i = i + 1;
    }
    assert(v@.skip(v@.len() as int) =~= Seq::<char>::empty());
    out
}

/// Removes every match of `pattern` from `s` (no change when the pattern
/// does not compile).
fn remove_matches(pattern: &str, s: String) -> (r: String)
    ensures
        r@ == removed_matches(pattern@, s@),
        r@.len() <= s@.len(),
{
    match compile(pattern) {
        Some(re) => {
            proof {
                reveal_strlit("");
                assert(""@ =~= Seq::<char>::empty());
            }
            replace_all(&re, s.as_str(), "")
        },
        None => s,
    }
}

/// Cleans compiler output so that it prints safely and classifies reliably:
/// `\r\n` and lone `\r` become `\n`, then ANSI CSI, OSC and other escape
/// sequences, and control characters other than `\n` and `\t`, are removed.
pub fn sanitize(raw: &str) -> (r: String)
    ensures
        r@ == sanitized(raw@),
        r@.len() <= raw@.len(),
{
    let normalized = normalize_line_endings(raw);
    proof {
        lemma_crlf_normalized_len(raw@);
    }
    let without_csi = remove_matches(CSI_PATTERN, normalized);
    let without_osc = remove_matches(OSC_PATTERN, without_csi);
    let without_ansi = remove_matches(OTHER_ANSI_PATTERN, without_osc);
    remove_matches(CONTROL_PATTERN, without_ansi)
}

} // verus!

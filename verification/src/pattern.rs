//! Regular expressions, through the `regex` crate.
//!
//! A pattern is compiled once into a [`CompiledRegex`], which remembers the
//! pattern text it was compiled from; that text is its view. What the `regex`
//! crate computes from a pattern and a haystack is named by the uninterpreted
//! functions below and is not restated here.

use regex::Regex;
use vstd::prelude::*;

verus! {

#[verifier::external_type_specification]
#[verifier::external_body]
pub struct ExRegex(regex::Regex);

/// A regular expression compiled by `regex::Regex::new`, kept together with
/// the pattern text it was compiled from. Only [`compile`] builds one.
pub struct CompiledRegex {
    re: Regex,
    source: String,
}

impl View for CompiledRegex {
    type V = Seq<char>;

    /// The pattern text this regex was compiled from.
    closed spec fn view(&self) -> Seq<char> {
        self.source@
    }
}

/// Whether `regex::Regex::new` accepts `pattern`.
pub uninterp spec fn regex_compiles(pattern: Seq<char>) -> bool;

/// What `regex::Regex::is_match` answers for `pattern` on `haystack`.
pub uninterp spec fn regex_is_match(pattern: Seq<char>, haystack: Seq<char>) -> bool;

/// What `regex::Regex::replace_all` returns for `pattern` on `haystack`
/// with `replacement` (in which `$` group references are expanded).
pub uninterp spec fn regex_replace_all(
    pattern: Seq<char>,
    haystack: Seq<char>,
    replacement: Seq<char>,
) -> Seq<char>;

/// The leftmost-first match of `pattern` in `haystack` as `regex::Regex::captures`
/// reports it: the text of the whole match, and the text of capture group 1
/// when that group took part in the match.
pub uninterp spec fn regex_first_captures(pattern: Seq<char>, haystack: Seq<char>) -> Option<
    (Seq<char>, Option<Seq<char>>),
>;

/// `regex_syntax::is_meta_character`: the characters `regex::escape` quotes.
pub open spec fn is_regex_meta(c: char) -> bool {
    c == '\\' || c == '.' || c == '+' || c == '*' || c == '?' || c == '(' || c == ')' || c == '|'
        || c == '[' || c == ']' || c == '{' || c == '}' || c == '^' || c == '$' || c == '#'
        || c == '&' || c == '-' || c == '~'
}

/// `text` with a backslash put before every regex meta character.
pub open spec fn regex_escaped(text: Seq<char>) -> Seq<char>
    decreases text.len(),
{
    if text.len() == 0 {
        Seq::empty()
    } else {
        let rest = regex_escaped(text.drop_last());
        if is_regex_meta(text.last()) {
            rest.push('\\').push(text.last())
        } else {
            rest.push(text.last())
        }
    }
}

/// `regex::Regex::new`. Claims: it gives a regex exactly when the pattern
/// compiles (a property of the pattern text alone), and the regex it gives
/// is the one for `pattern`.
#[verifier::external_body]
pub(crate) fn compile(pattern: &str) -> (r: Option<CompiledRegex>)
    ensures
        r.is_some() == regex_compiles(pattern@),
        r matches Some(c) ==> c@ == pattern@,
{
    match Regex::new(pattern) {
        Ok(re) => Some(CompiledRegex { re, source: pattern.to_string() }),
        Err(_) => None,
    }
}

/// `regex::Regex::is_match`. Claims: the answer is the one named by
/// `regex_is_match` for the regex's pattern and the haystack.
#[verifier::external_body]
pub(crate) fn is_match(re: &CompiledRegex, haystack: &str) -> (b: bool)
    ensures
        b == regex_is_match(re@, haystack@),
{
    re.re.is_match(haystack)
}

/// `regex::Regex::replace_all` with a `&str` replacement (`$` group
/// references in it are expanded). Claims: the result is the one named by
/// `regex_replace_all`; and, as every match is replaced by the replacement,
/// an empty replacement never lengthens the text.
/// Which parts of the haystack the matches cover is left unsaid.
#[verifier::external_body]
pub(crate) fn replace_all(re: &CompiledRegex, haystack: &str, replacement: &str) -> (r: String)
    ensures
        r@ == regex_replace_all(re@, haystack@, replacement@),
        replacement@.len() == 0 ==> r@.len() <= haystack@.len(),
{
    re.re.replace_all(haystack, replacement).into_owned()
}

/// `regex::Regex::captures`, reduced to the text of the whole match and of
/// capture group 1. Claims: the result is the one named by
/// `regex_first_captures`.
#[verifier::external_body]
pub(crate) fn first_captures(re: &CompiledRegex, haystack: &str) -> (r: Option<
    (String, Option<String>),
>)
    ensures
        r.deep_view() == regex_first_captures(re@, haystack@),
{
    match re.re.captures(haystack) {
        Some(caps) => {
            let group = match caps.get(1) {
                Some(m) => Some(m.as_str().to_string()),
                None => None,
            };
            Some((caps[0].to_string(), group))
        },
        None => None,
    }
}

/// `regex::escape`. Claims what its source shows: every character is kept,
/// and each regex meta character gets a backslash before it.
#[verifier::external_body]
pub(crate) fn escape(text: &str) -> (r: String)
    ensures
        r@ == regex_escaped(text@),
{
    regex::escape(text)
}

} // verus!

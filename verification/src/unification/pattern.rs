//! Regular expressions, as the `regex` crate matches them.

use vstd::prelude::*;
use crate::text::texts;

verus! {

/// Whether `pattern` is a regular expression that the `regex` crate accepts.
pub uninterp spec fn regex_compiles(pattern: Seq<char>) -> bool;

/// Whether the regular expression `pattern` matches somewhere in `text`.
pub uninterp spec fn regex_matches(pattern: Seq<char>, text: Seq<char>) -> bool;

/// Calls `regex::Regex::new` and reports whether it accepted `pattern`. That
/// outcome depends on the pattern alone, so it is given the name
/// `regex_compiles`.
#[verifier::external_body]
pub(crate) fn pattern_compiles(pattern: &str) -> (accepted: bool)
    ensures
        accepted == regex_compiles(pattern@),
{
    regex::Regex::new(pattern).is_ok()
}

/// Calls `regex::Regex::is_match` on the regular expression compiled from
/// `pattern`. Whether it matches depends on the pattern and the text alone, so
/// it is given the name `regex_matches`. A pattern that `Regex::new` rejects is
/// left out: for it the call would panic.
#[verifier::external_body]
pub(crate) fn pattern_matches(pattern: &str, text: &str) -> (matched: bool)
    requires
        regex_compiles(pattern@),
    ensures
        matched == regex_matches(pattern@, text@),
{
    regex::Regex::new(pattern).unwrap().is_match(text)
}

/// The parts of `text` that the regular expression `pattern` matches, one
/// after the other, from left to right and without overlap.
pub uninterp spec fn regex_captures(pattern: Seq<char>, text: Seq<char>) -> Seq<Seq<char>>;

/// Calls `regex::Regex::captures_iter` on the regular expression compiled from
/// `pattern` and takes from each match its group 0, the whole match. What is
/// matched depends on the pattern and the text alone, so it is given the name
/// `regex_captures`. A pattern that `Regex::new` rejects is left out: for it
/// the call would panic.
#[verifier::external_body]
pub(crate) fn pattern_captures(pattern: &str, text: &str) -> (found: Vec<String>)
    requires
        regex_compiles(pattern@),
    ensures
        texts(found@) == regex_captures(pattern@, text@),
{
    let re = regex::Regex::new(pattern).unwrap();
    re.captures_iter(text).map(|cap| cap.get(0).unwrap().as_str().to_string()).collect()
}

} // verus!

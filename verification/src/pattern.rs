//! Regular expressions, as the `regex` crate compiles and applies them.
//!
//! A `Pattern` holds a regex that `Regex::new` compiled, a `PatternSet` a set
//! that `RegexSet::new` compiled; no other way leads to a value of either, so
//! what such a value does depends on the text of its patterns alone. What a
//! match or a replacement yields is given a name, a function of the pattern
//! and the text, and little more is said of it: the calls into the crate are
//! believed, not proved.

use crate::error::{Failure, FailureModel};
use vstd::prelude::*;

verus! {

/// A compiled regular expression of the `regex` crate.
#[verifier::external_type_specification]
#[verifier::external_body]
pub struct ExRegex(regex::Regex);

/// A compiled set of regular expressions of the `regex` crate.
#[verifier::external_type_specification]
#[verifier::external_body]
pub struct ExRegexSet(regex::RegexSet);

/// The error type of the `regex` crate.
#[verifier::external_type_specification]
#[verifier::external_body]
pub struct ExRegexError(regex::Error);

/// The pattern that a regex was compiled from, as `Regex::as_str` returns it.
pub uninterp spec fn regex_source(re: regex::Regex) -> Seq<char>;

/// The patterns that a set was compiled from, as `RegexSet::patterns` returns
/// them.
pub uninterp spec fn regex_set_patterns(set: regex::RegexSet) -> Seq<Seq<char>>;

/// What the `Display` of an error of the `regex` crate writes.
pub uninterp spec fn regex_error_text(e: regex::Error) -> Seq<char>;

/// The words with which `Regex::new` refuses `pattern`; `None` where it
/// accepts the pattern.
pub uninterp spec fn regex_refusal(pattern: Seq<char>) -> Option<Seq<char>>;

/// The words with which `RegexSet::new` refuses `patterns`; `None` where it
/// accepts them.
pub uninterp spec fn regex_set_refusal(patterns: Seq<Seq<char>>) -> Option<Seq<char>>;

/// Whether `Regex::new` accepts `pattern`.
pub open spec fn regex_compiles(pattern: Seq<char>) -> bool {
    regex_refusal(pattern) is None
}

/// Whether `RegexSet::new` accepts `patterns`.
pub open spec fn regex_set_compiles(patterns: Seq<Seq<char>>) -> bool {
    regex_set_refusal(patterns) is None
}

/// Whether the regex that `Regex::new` compiles from `pattern` matches
/// somewhere in `text`.
pub uninterp spec fn regex_is_match(pattern: Seq<char>, text: Seq<char>) -> bool;

/// `text` after `Regex::replace` has put `replacement` for the leftmost match
/// of the regex that `Regex::new` compiles from `pattern`.
pub uninterp spec fn regex_replaced(
    pattern: Seq<char>,
    text: Seq<char>,
    replacement: Seq<char>,
) -> Seq<char>;

/// How the leftmost match of the regex that `Regex::new` compiles from
/// `pattern` cuts `text` at its first capture group: what stands before the
/// group, the group, and what stands after it. `None` where nothing matches,
/// `Some(None)` where the match leaves the group out.
pub uninterp spec fn regex_first_group(pattern: Seq<char>, text: Seq<char>) -> Option<
    Option<(Seq<char>, Seq<char>, Seq<char>)>,
>;

/// Whether any of the regexes compiled from `patterns` matches somewhere in
/// `text`.
pub open spec fn any_is_match(patterns: Seq<Seq<char>>, text: Seq<char>) -> bool {
    exists|i: int| 0 <= i < patterns.len() && regex_is_match(#[trigger] patterns[i], text)
}

/// Calls `Regex::new`. The contract claims that whether it succeeds, and
/// with what error it fails, depends on the pattern alone, and that the regex
/// it returns keeps the pattern.
#[verifier::external_body]
fn compile(pattern: &str) -> (r: Result<regex::Regex, regex::Error>)
    ensures
        r matches Ok(re) ==> regex_refusal(pattern@) is None && regex_source(re) == pattern@,
        r matches Err(e) ==> regex_refusal(pattern@) == Some(regex_error_text(e)),
{
    regex::Regex::new(pattern)
}

/// Calls `RegexSet::new`. The contract claims that whether it succeeds, and
/// with what error it fails, depends on the patterns alone, and that the set
/// it returns keeps them in their order.
#[verifier::external_body]
fn compile_set(patterns: &Vec<String>) -> (r: Result<regex::RegexSet, regex::Error>)
    ensures
        r matches Ok(set) ==> regex_set_refusal(patterns.deep_view()) is None
            && regex_set_patterns(set) == patterns.deep_view(),
        r matches Err(e) ==> regex_set_refusal(patterns.deep_view()) == Some(regex_error_text(e)),
{
    regex::RegexSet::new(patterns)
}

/// Calls `to_string` on an error of the `regex` crate, which writes it with
/// its `Display`.
#[verifier::external_body]
fn error_text(e: &regex::Error) -> (r: String)
    ensures
        r@ == regex_error_text(*e),
{
    e.to_string()
}

/// Calls `Regex::is_match` on the regex of a `Pattern`, which `compile` made.
/// The contract claims that the answer of such a regex depends on its pattern
/// and on the text alone.
#[verifier::external_body]
fn is_match(re: &regex::Regex, text: &str) -> (r: bool)
    ensures
        r == regex_is_match(regex_source(*re), text@),
{
    re.is_match(text)
}

/// Calls `RegexSet::is_match` on the set of a `PatternSet`, which
/// `compile_set` made. Its documentation says that the answer is true if and
/// only if one of the regexes in the set matches the text.
#[verifier::external_body]
fn set_is_match(set: &regex::RegexSet, text: &str) -> (r: bool)
    ensures
        r == any_is_match(regex_set_patterns(*set), text@),
{
    set.is_match(text)
}

/// Calls `Regex::replace` on the regex of a `Pattern`, which `compile` made.
/// The contract claims that the new text depends on the pattern, on the text
/// and on the replacement alone, and, as the documentation says, that the
/// text comes back unchanged where no match is found.
#[verifier::external_body]
fn replace(re: &regex::Regex, text: &str, replacement: &str) -> (r: String)
    ensures
        r@ == regex_replaced(regex_source(*re), text@, replacement@),
        !regex_is_match(regex_source(*re), text@) ==> r@ == text@,
{
    re.replace(text, replacement).to_string()
}

/// Calls `Regex::captures` on the regex of a `Pattern`, which `compile` made,
/// and, on a match, `Captures::get(1)`; the group that comes back is handed on
/// as the three pieces into which its `start()` and `end()` cut the text. The
/// contract claims that the pieces depend on the pattern and on the text
/// alone, and that, being cut from the text, they make it up again.
#[verifier::external_body]
fn first_group(re: &regex::Regex, text: &str) -> (r: Option<Option<(String, String, String)>>)
    ensures
        r.deep_view() == regex_first_group(regex_source(*re), text@),
        r matches Some(Some((before, term, after))) ==> before@ + term@ + after@ == text@,
{
    re.captures(text).map(|c| c.get(1).map(|g| (
        text[..g.start()].to_string(),
        g.as_str().to_string(),
        text[g.end()..].to_string(),
    )))
}

/// A regular expression, compiled from its pattern by `Regex::new`.
pub struct Pattern {
    re: regex::Regex,
}

/// A set of regular expressions, compiled from their patterns by
/// `RegexSet::new`.
pub struct PatternSet {
    set: regex::RegexSet,
}

impl Pattern {
    /// The pattern that the regex was compiled from.
    pub closed spec fn source(&self) -> Seq<char> {
        regex_source(self.re)
    }

    /// Compiles `pattern`; where the `regex` crate refuses it, the fault
    /// holds the crate's words.
    pub fn new(pattern: &str) -> (r: Result<Pattern, Failure>)
        ensures
            r is Ok == regex_compiles(pattern@),
            r matches Ok(p) ==> p.source() == pattern@,
            r matches Err(e) ==> regex_refusal(pattern@) matches Some(text) && e.deep_view()
                == FailureModel::Pattern(text),
    {
        match compile(pattern) {
            Ok(re) => Ok(Pattern { re }),
            Err(e) => Err(Failure::Pattern(error_text(&e))),
        }
    }

    /// Whether the regex matches somewhere in `text`.
    pub fn is_match(&self, text: &str) -> (r: bool)
        ensures
            r == regex_is_match(self.source(), text@),
    {
        is_match(&self.re, text)
    }

    /// `text` with `replacement` put for the leftmost match; `text` itself
    /// where nothing matches.
    pub fn replace(&self, text: &str, replacement: &str) -> (r: String)
        ensures
            r@ == regex_replaced(self.source(), text@, replacement@),
            !regex_is_match(self.source(), text@) ==> r@ == text@,
    {
        replace(&self.re, text, replacement)
    }

    /// How the leftmost match cuts `text` at the first capture group: what
    /// stands before the group, the group, and what stands after it.
    pub fn first_group(&self, text: &str) -> (r: Option<Option<(String, String, String)>>)
        ensures
            r.deep_view() == regex_first_group(self.source(), text@),
            r matches Some(Some((before, term, after))) ==> before@ + term@ + after@ == text@,
    {
        first_group(&self.re, text)
    }
}

impl PatternSet {
    /// The patterns that the set was compiled from.
    pub closed spec fn sources(&self) -> Seq<Seq<char>> {
        regex_set_patterns(self.set)
    }

    /// Compiles `patterns` into one set; where the `regex` crate refuses
    /// them, the fault holds the crate's words.
    pub fn new(patterns: &Vec<String>) -> (r: Result<PatternSet, Failure>)
        ensures
            r is Ok == regex_set_compiles(patterns.deep_view()),
            r matches Ok(p) ==> p.sources() == patterns.deep_view(),
            r matches Err(e) ==> regex_set_refusal(patterns.deep_view()) matches Some(text)
                && e.deep_view() == FailureModel::Pattern(text),
    {
        match compile_set(patterns) {
            Ok(set) => Ok(PatternSet { set }),
            Err(e) => Err(Failure::Pattern(error_text(&e))),
        }
    }

    /// Whether one of the regexes of the set matches somewhere in `text`.
    pub fn is_match(&self, text: &str) -> (r: bool)
        ensures
            r == any_is_match(self.sources(), text@),
    {
        set_is_match(&self.set, text)
    }
}

} // verus!

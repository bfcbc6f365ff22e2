//! The matcher capability: match, explain, describe.

use vstd::prelude::*;

verus! {

/// The verdict of a match attempt: the actual value either satisfies the
/// matcher or it does not. There is no partial state.
#[derive(Clone, Copy, Debug, PartialEq, Eq, Structural)]
pub enum MatcherResult {
    /// The actual value satisfies the matcher.
    Matches,
    /// The actual value does not satisfy the matcher.
    DoesNotMatch,
}

impl MatcherResult {
    /// Pick one of two values by the verdict.
    pub fn pick<'a>(self, matches_value: &'a str, does_not_match_value: &'a str) -> (r: &'a str)
        ensures
            r == if self is Matches {
                matches_value
            } else {
                does_not_match_value
            },
    {
        match self {
            MatcherResult::Matches => matches_value,
            MatcherResult::DoesNotMatch => does_not_match_value,
        }
    }
}

/// Why a match or mismatch occurred, as owned text produced fresh per
/// invocation.
#[derive(Debug)]
pub struct MatchExplanation {
    text: String,
}

impl View for MatchExplanation {
    type V = Seq<char>;

    closed spec fn view(&self) -> Seq<char> {
        self.text@
    }
}

impl MatchExplanation {
    /// An explanation holding `text`.
    pub fn create(text: String) -> (e: Self)
        ensures
            e@ == text@,
    {
        MatchExplanation { text }
    }

    /// The explanation's text.
    pub fn as_str(&self) -> (s: &str)
        ensures
            s@ == self@,
    {
        self.text.as_str()
    }
}

/// The capability every matcher implements: decide whether an actual
/// value matches, explain the outcome, and describe the expectation.
///
/// The three specification members pin each method's result exactly, so
/// composite matchers can state what they build from their parts.
pub trait Matcher<T>: Sized {
    /// Whether `actual` satisfies this matcher.
    spec fn matches_spec(&self, actual: T) -> bool;

    /// The explanation text for `actual`.
    spec fn explain_spec(&self, actual: T) -> Seq<char>;

    /// The description text for a verdict.
    spec fn describe_spec(&self, result: MatcherResult) -> Seq<char>;

    /// Decide whether `actual` matches.
    fn matches(&self, actual: &T) -> (r: MatcherResult)
        ensures
            r is Matches <==> self.matches_spec(*actual),
    ;

    /// Explain why `actual` matches or fails to match.
    fn explain_match(&self, actual: &T) -> (e: MatchExplanation)
        ensures
            e@ == self.explain_spec(*actual),
    ;

    /// Describe the expectation: positively phrased for a passing verdict
    /// and negated otherwise.
    fn describe(&self, matcher_result: MatcherResult) -> (s: String)
        ensures
            s@ == self.describe_spec(matcher_result),
    ;
}

} // verus!

//! A leaf matcher: equality with an expected integer.

use vstd::prelude::*;

use crate::matcher::{MatchExplanation, Matcher, MatcherResult};
use crate::text::{append_str, dec_seq_i64, push_i64_dec, string_from_chars};

verus! {

/// Matches values equal to an expected one.
#[derive(Clone, Copy, Debug)]
pub struct EqMatcher {
    /// The value the actual value must equal.
    pub expected: i64,
}

/// A matcher for equality with `expected`.
pub fn eq(expected: i64) -> (m: EqMatcher)
    ensures
        m.expected == expected,
{
    EqMatcher { expected }
}

impl Matcher<i64> for EqMatcher {
    open spec fn matches_spec(&self, actual: i64) -> bool {
        actual == self.expected
    }

    open spec fn explain_spec(&self, actual: i64) -> Seq<char> {
        "which "@ + self.describe_spec(
            if actual == self.expected {
                MatcherResult::Matches
            } else {
                MatcherResult::DoesNotMatch
            },
        )
    }

    open spec fn describe_spec(&self, result: MatcherResult) -> Seq<char> {
        if result is Matches {
            "is equal to "@ + dec_seq_i64(self.expected as int)
        } else {
            "isn't equal to "@ + dec_seq_i64(self.expected as int)
        }
    }

    fn matches(&self, actual: &i64) -> (r: MatcherResult) {
        if *actual == self.expected {
            MatcherResult::Matches
        } else {
            MatcherResult::DoesNotMatch
        }
    }

    fn explain_match(&self, actual: &i64) -> (e: MatchExplanation) {
        let mut v: Vec<char> = Vec::new();
        append_str(&mut v, "which ");
        if *actual == self.expected {
            append_str(&mut v, "is equal to ");
            push_i64_dec(&mut v, self.expected);
            proof {
                assert(v@ =~= "which "@ + ("is equal to "@ + dec_seq_i64(self.expected as int)));
            }
        } else {
            append_str(&mut v, "isn't equal to ");
            push_i64_dec(&mut v, self.expected);
            proof {
                assert(v@ =~= "which "@ + ("isn't equal to "@ + dec_seq_i64(
                    self.expected as int,
                )));
            }
        }
        MatchExplanation::create(string_from_chars(&v))
    }

    fn describe(&self, matcher_result: MatcherResult) -> (s: String) {
        let mut v: Vec<char> = Vec::new();
        match matcher_result {
            MatcherResult::Matches => append_str(&mut v, "is equal to "),
            MatcherResult::DoesNotMatch => append_str(&mut v, "isn't equal to "),
        }
        push_i64_dec(&mut v, self.expected);
        string_from_chars(&v)
    }
}

} // verus!

use googletest::elements_are_matcher::ElementsAre;
use googletest::eq_matcher::eq;
use googletest::matcher::{Matcher, MatcherResult};

#[test]
fn elements_are_matches_when_every_position_matches() {
    let matcher = ElementsAre::new(vec![eq(1), eq(2), eq(3)]);
    let value: Vec<i64> = vec![1, 2, 3];
    assert!(matches!(matcher.matches(&value), MatcherResult::Matches));
}

#[test]
fn elements_are_rejects_a_failing_position() {
    let matcher = ElementsAre::new(vec![eq(1), eq(2), eq(3)]);
    let value: Vec<i64> = vec![1, 4, 3];
    assert!(matches!(matcher.matches(&value), MatcherResult::DoesNotMatch));
}

#[test]
fn elements_are_rejects_any_other_length() {
    let matcher = ElementsAre::new(vec![eq(1), eq(2), eq(3)]);
    let shorter: Vec<i64> = vec![1, 2];
    assert!(matches!(matcher.matches(&shorter), MatcherResult::DoesNotMatch));
    let longer: Vec<i64> = vec![1, 2, 3, 3];
    assert!(matches!(matcher.matches(&longer), MatcherResult::DoesNotMatch));
    let empty: Vec<i64> = vec![];
    assert!(matches!(matcher.matches(&empty), MatcherResult::DoesNotMatch));
}

#[test]
fn elements_are_empty_matches_empty() {
    let matcher: ElementsAre<googletest::eq_matcher::EqMatcher> = ElementsAre::new(vec![]);
    let empty: Vec<i64> = vec![];
    assert!(matches!(matcher.matches(&empty), MatcherResult::Matches));
}

#[test]
fn elements_are_explains_a_single_mismatch() {
    let matcher = ElementsAre::new(vec![eq(1), eq(2), eq(3)]);
    let value: Vec<i64> = vec![1, 4, 3];
    let explanation = matcher.explain_match(&value);
    assert_eq!(explanation.as_str(), "where element #1 is 4, which isn't equal to 2");
}

#[test]
fn elements_are_explain_match_wrong_size() {
    let matcher = ElementsAre::new(vec![eq(1), eq(2), eq(3)]);
    let value: Vec<i64> = vec![1, 2];
    let explanation = matcher.explain_match(&value);
    assert_eq!(explanation.as_str(), "whose size is 2");
}

#[test]
fn elements_are_explains_when_all_match() {
    let matcher = ElementsAre::new(vec![eq(1), eq(2)]);
    let value: Vec<i64> = vec![1, 2];
    let explanation = matcher.explain_match(&value);
    assert_eq!(explanation.as_str(), "whose elements all match");
}

#[test]
fn elements_are_explains_multiple_mismatches_as_bullets() {
    let matcher = ElementsAre::new(vec![eq(1), eq(2), eq(3)]);
    let value: Vec<i64> = vec![4, 5, 3];
    let explanation = matcher.explain_match(&value);
    assert_eq!(
        explanation.as_str(),
        "where:\n  * element #0 is 4, which isn't equal to 1\n  * element #1 is 5, which isn't equal to 2"
    );
}

#[test]
fn elements_are_explains_nested_mismatches() {
    let matcher = ElementsAre::new(vec![
        ElementsAre::new(vec![eq(1), eq(2)]),
        ElementsAre::new(vec![eq(2), eq(3)]),
    ]);
    let value: Vec<Vec<i64>> = vec![vec![0, 1], vec![1, 2]];
    let explanation = matcher.explain_match(&value);
    assert_eq!(
        explanation.as_str(),
        "where:\n  * element #0 is [0, 1], where:\n      * element #0 is 0, which isn't equal to 1\n      * element #1 is 1, which isn't equal to 2\n  * element #1 is [1, 2], where:\n      * element #0 is 1, which isn't equal to 2\n      * element #1 is 2, which isn't equal to 3"
    );
}

#[test]
fn elements_are_describes_the_expectation() {
    let matcher = ElementsAre::new(vec![eq(1), eq(2), eq(3)]);
    assert_eq!(
        matcher.describe(MatcherResult::Matches),
        "has elements:\n  0. is equal to 1\n  1. is equal to 2\n  2. is equal to 3"
    );
    assert_eq!(
        matcher.describe(MatcherResult::DoesNotMatch),
        "doesn't have elements:\n  0. is equal to 1\n  1. is equal to 2\n  2. is equal to 3"
    );
}

#[test]
fn elements_are_describes_nested_expectations() {
    let matcher = ElementsAre::new(vec![
        ElementsAre::new(vec![eq(1), eq(2)]),
        ElementsAre::new(vec![eq(2), eq(3)]),
    ]);
    assert_eq!(
        matcher.describe(MatcherResult::Matches),
        "has elements:\n  0. has elements:\n       0. is equal to 1\n       1. is equal to 2\n  1. has elements:\n       0. is equal to 2\n       1. is equal to 3"
    );
}

#[test]
fn eq_matcher_reports_both_verdicts() {
    let matcher = eq(5);
    let yes: i64 = 5;
    let no: i64 = -7;
    assert!(matches!(matcher.matches(&yes), MatcherResult::Matches));
    assert!(matches!(matcher.matches(&no), MatcherResult::DoesNotMatch));
    assert_eq!(matcher.describe(MatcherResult::Matches), "is equal to 5");
    assert_eq!(matcher.describe(MatcherResult::DoesNotMatch), "isn't equal to 5");
    assert_eq!(matcher.explain_match(&no).as_str(), "which isn't equal to 5");
    assert_eq!(matcher.explain_match(&yes).as_str(), "which is equal to 5");
    let negative = eq(-3);
    assert_eq!(negative.describe(MatcherResult::Matches), "is equal to -3");
}

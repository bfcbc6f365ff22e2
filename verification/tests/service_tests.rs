use googletest::description::Description;
use googletest::edit_distance::Table;
use googletest::matcher::MatcherResult;
use googletest::zipped_iterator::zip;

fn frag(s: &str) -> Vec<char> {
    s.chars().collect()
}

fn to_string(v: Vec<char>) -> String {
    v.into_iter().collect()
}

#[test]
fn table_fills_the_first_dimension_first() {
    let mut t: Table<u32> = Table::new(2, 2);
    t.push(10);
    t.push(11);
    t.push(20);
    t.push(21);
    assert_eq!(*t.at(0, 0), 10);
    assert_eq!(*t.at(1, 0), 11);
    assert_eq!(*t.at(0, 1), 20);
    assert_eq!(*t.at(1, 1), 21);
}

#[test]
fn description_renders_an_indented_bullet_list() {
    let mut d = Description::new();
    d.push(frag("first line\nsecond"));
    d.push(frag("third"));
    let rendered = to_string(d.bullet_list().indent().render());
    assert_eq!(rendered, "  * first line\n    second\n  * third");
}

#[test]
fn description_renders_an_enumerated_list() {
    let mut d = Description::new();
    d.push(frag("a"));
    d.push(frag("b\nc"));
    let rendered = to_string(d.enumerate().render());
    assert_eq!(rendered, "0. a\n1. b\n   c");
}

#[test]
fn zipped_iterator_detects_a_size_mismatch_only_at_exhaustion() {
    let longer = vec![1, 2, 3];
    let shorter = vec![10, 20];
    let mut z = zip(&longer, &shorter);
    assert!(!z.has_size_mismatch());
    assert_eq!(z.next(), Some((&1, &10)));
    assert_eq!(z.next(), Some((&2, &20)));
    assert!(!z.has_size_mismatch());
    assert_eq!(z.next(), None);
    assert!(z.has_size_mismatch());
}

#[test]
fn zipped_iterator_reports_no_mismatch_for_equal_lengths() {
    let a = vec![1, 2];
    let b = vec![10, 20];
    let mut z = zip(&a, &b);
    assert_eq!(z.next(), Some((&1, &10)));
    assert_eq!(z.next(), Some((&2, &20)));
    assert_eq!(z.next(), None);
    assert!(!z.has_size_mismatch());
}

#[test]
fn matcher_result_picks_by_verdict() {
    assert_eq!(MatcherResult::Matches.pick("has", "doesn't have"), "has");
    assert_eq!(MatcherResult::DoesNotMatch.pick("has", "doesn't have"), "doesn't have");
}

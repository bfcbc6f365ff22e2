use googletest::cost::Cost;
use googletest::edit_distance::{edit_list, Edit, Distance};

fn chars(s: &str) -> Vec<char> {
    s.chars().collect()
}

fn is_both(e: &Edit<char>, l: char, r: char) -> bool {
    matches!(e, Edit::Both { left, right, .. } if *left == l && *right == r)
}

fn is_extra_left(e: &Edit<char>, l: char) -> bool {
    matches!(e, Edit::ExtraLeft { left } if *left == l)
}

fn is_extra_right(e: &Edit<char>, r: char) -> bool {
    matches!(e, Edit::ExtraRight { right } if *right == r)
}

fn total_unit_cost(edits: &[Edit<char>]) -> u64 {
    edits
        .iter()
        .map(|e| match e {
            Edit::Both { distance, .. } => {
                assert_eq!(distance.den, 1);
                distance.num
            }
            _ => 1,
        })
        .sum()
}

#[test]
fn exact_match() {
    let edits = edit_list(&chars("hello"), &chars("hello"));
    assert_eq!(edits.len(), 5);
    let expected = ['h', 'e', 'l', 'l', 'o'];
    for (i, e) in edits.iter().enumerate() {
        assert!(is_both(e, expected[i], expected[i]));
        match e {
            Edit::Both { distance, .. } => assert_eq!((distance.num, distance.den), (0, 1)),
            _ => unreachable!(),
        }
    }
}

#[test]
fn completely_different() {
    let edits = edit_list(&chars("goodbye"), &chars("hello"));
    assert_eq!(edits.len(), 7);
    assert!(is_both(&edits[0], 'g', 'h'));
    assert!(is_both(&edits[1], 'o', 'e'));
    assert!(is_both(&edits[2], 'o', 'l'));
    assert!(is_both(&edits[3], 'd', 'l'));
    assert!(is_both(&edits[4], 'b', 'o'));
    assert!(is_extra_left(&edits[5], 'y'));
    assert!(is_extra_left(&edits[6], 'e'));
}

#[test]
fn slightly_different() {
    let edits = edit_list(&chars("floor"), &chars("flower"));
    assert_eq!(edits.len(), 6);
    assert!(is_both(&edits[0], 'f', 'f'));
    assert!(is_both(&edits[1], 'l', 'l'));
    assert!(is_both(&edits[2], 'o', 'o'));
    assert!(is_both(&edits[3], 'o', 'w'));
    assert!(is_extra_right(&edits[4], 'e'));
    assert!(is_both(&edits[5], 'r', 'r'));
}

#[test]
fn lines_difference() {
    let left_src = "int: 123\nstring: \"something\"\n";
    let right_src = "int: 321\nstring: \"someone\"\n";
    let left: Vec<&str> = left_src.lines().collect();
    let right: Vec<&str> = right_src.lines().collect();
    let edits = edit_list(&left, &right);
    assert_eq!(edits.len(), 2);
    assert!(
        matches!(&edits[0], Edit::Both { left, right, .. } if *left == "int: 123" && *right == "int: 321")
    );
    assert!(
        matches!(&edits[1], Edit::Both { left, right, .. } if *left == "string: \"something\"" && *right == "string: \"someone\"")
    );
}

#[test]
fn swapped_arguments_mirror_the_edits() {
    let forward = edit_list(&chars("floor"), &chars("flower"));
    let backward = edit_list(&chars("flower"), &chars("floor"));
    assert_eq!(forward.len(), backward.len());
    for (f, b) in forward.iter().zip(backward.iter()) {
        match (f, b) {
            (
                Edit::Both { left: fl, right: fr, distance: fd },
                Edit::Both { left: bl, right: br, distance: bd },
            ) => {
                assert_eq!((fl, fr), (br, bl));
                assert_eq!((fd.num, fd.den), (bd.num, bd.den));
            }
            (Edit::ExtraLeft { left }, Edit::ExtraRight { right }) => assert_eq!(left, right),
            (Edit::ExtraRight { right }, Edit::ExtraLeft { left }) => assert_eq!(right, left),
            _ => panic!("edits do not mirror"),
        }
    }
    assert_eq!(total_unit_cost(&forward), total_unit_cost(&backward));
}

#[test]
fn swapped_arguments_keep_the_total_cost() {
    let forward = edit_list(&chars("aba"), &chars("bab"));
    let backward = edit_list(&chars("bab"), &chars("aba"));
    assert_eq!(total_unit_cost(&forward), 2);
    assert_eq!(total_unit_cost(&backward), 2);
}

#[test]
fn self_alignment_is_all_zero_cost_pairs() {
    let edits = edit_list(&chars("xyzzy"), &chars("xyzzy"));
    assert_eq!(edits.len(), 5);
    for e in &edits {
        match e {
            Edit::Both { left, right, distance } => {
                assert_eq!(left, right);
                assert_eq!((distance.num, distance.den), (0, 1));
            }
            _ => panic!("self alignment produced a non-pair edit"),
        }
    }
}

#[test]
fn unit_cost_never_exceeds_longer_length() {
    let edits = edit_list(&chars("goodbye"), &chars("hello"));
    assert_eq!(total_unit_cost(&edits), 7);
    assert!(total_unit_cost(&edits) <= 7);
    let edits = edit_list(&chars("kitten"), &chars("sitting"));
    assert_eq!(total_unit_cost(&edits), 3);
    assert!(total_unit_cost(&edits) <= 7);
}

#[test]
fn empty_sides_become_pure_insertions_or_deletions() {
    let edits = edit_list(&Vec::new(), &chars("ab"));
    assert_eq!(edits.len(), 2);
    assert!(is_extra_right(&edits[0], 'a'));
    assert!(is_extra_right(&edits[1], 'b'));
    let edits = edit_list(&chars("ab"), &Vec::new());
    assert_eq!(edits.len(), 2);
    assert!(is_extra_left(&edits[0], 'a'));
    assert!(is_extra_left(&edits[1], 'b'));
}

#[test]
fn char_distance_is_zero_one() {
    let c = <char as Distance>::distance('a', 'a');
    assert_eq!((c.num, c.den), (0, 1));
    let c = <char as Distance>::distance('a', 'b');
    assert_eq!((c.num, c.den), (1, 1));
}

#[test]
fn string_distance_is_one_plus_relative_edit_cost() {
    let c = <&str as Distance>::distance("kitten", "sitting");
    assert_eq!((c.num, c.den), (10, 7));
    let c = <&str as Distance>::distance("same", "same");
    assert_eq!((c.num, c.den), (0, 1));
    let c = <&str as Distance>::distance("", "x");
    assert_eq!((c.num, c.den), (2, 1));
    let c = <&str as Distance>::distance("abc", "xyz");
    assert_eq!((c.num, c.den), (6, 3));
}

#[test]
fn cost_addition_is_exact() {
    let a = Cost { num: 1, den: 2 };
    let b = Cost { num: 1, den: 3 };
    let s = a.add(&b);
    assert_eq!((s.num, s.den), (5, 6));
    assert!(!a.le(&b));
    assert!(b.le(&a));
}

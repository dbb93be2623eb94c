use dhondt::hierarchy::{mega_name, parties_of, some_group_empty};
use dhondt::parse::{is_well_joined, parse_coalitions};

fn nested(groups: &[&[&str]]) -> Vec<Vec<String>> {
    groups.iter().map(|mega| mega.iter().map(|name| name.to_string()).collect()).collect()
}

#[test]
fn parses_the_sample_text() {
    assert_eq!(parse_coalitions("A CV+DO"), nested(&[&["A"], &["CV", "DO"]]));
    assert_eq!(parse_coalitions("A CV+DO BFØ"), nested(&[&["A"], &["CV", "DO"], &["BFØ"]]));
}

#[test]
fn commas_separate_like_spaces() {
    assert_eq!(parse_coalitions("A,B+C"), nested(&[&["A"], &["B", "C"]]));
    assert_eq!(parse_coalitions("A, B"), nested(&[&["A"], &["B"]]));
    assert_eq!(parse_coalitions("A ,, ,B"), nested(&[&["A"], &["B"]]));
}

#[test]
fn leading_separators_open_nothing() {
    assert_eq!(parse_coalitions("  A"), nested(&[&["A"]]));
}

#[test]
fn separators_after_a_join_open_nothing() {
    assert_eq!(parse_coalitions("A+ B"), nested(&[&["A", "B"]]));
}

#[test]
fn empty_text_is_one_empty_coalition() {
    assert_eq!(parse_coalitions(""), nested(&[&[""]]));
    assert_eq!(parse_coalitions(" , "), nested(&[&[""]]));
}

#[test]
fn trailing_separator_leaves_an_empty_group() {
    assert_eq!(parse_coalitions("A "), nested(&[&["A"], &[""]]));
    assert_eq!(parse_coalitions("AB+"), nested(&[&["AB", ""]]));
}

#[test]
fn any_other_character_is_a_label() {
    assert_eq!(parse_coalitions("a\t1+-"), nested(&[&["a\t1", "-"]]));
}

#[test]
fn joins_must_follow_labels() {
    assert!(is_well_joined(""));
    assert!(is_well_joined("A CV+DO"));
    assert!(is_well_joined("A+ B"));
    assert!(is_well_joined("A+"));
    assert!(!is_well_joined("+A"));
    assert!(!is_well_joined("A++B"));
    assert!(!is_well_joined("A +B"));
    assert!(!is_well_joined("A,+B"));
}

#[test]
fn mega_coalition_is_named_by_its_parties() {
    assert_eq!(mega_name(&vec!["CV".to_string(), "DO".to_string()]), "CVDO");
    assert_eq!(mega_name(&vec!["A".to_string()]), "A");
    assert_eq!(mega_name(&Vec::new()), "");
}

#[test]
fn parties_come_in_reading_order() {
    let coalitions = parse_coalitions("A CV+DO BFØ");
    assert_eq!(parties_of(&coalitions), vec!['A', 'C', 'V', 'D', 'O', 'B', 'F', 'Ø']);
    assert_eq!(parties_of(&nested(&[&["AB"], &["A"]])), vec!['A', 'B', 'A']);
}

#[test]
fn empty_groups_are_found() {
    assert!(some_group_empty(&Vec::new()));
    assert!(some_group_empty(&vec![vec![]]));
    assert!(some_group_empty(&parse_coalitions("A ")));
    assert!(some_group_empty(&parse_coalitions("")));
    assert!(!some_group_empty(&parse_coalitions("A CV+DO")));
}

use dhondt::allocate::calculate_seats;
use dhondt::distribution::SeatDistribution;
use dhondt::parse::parse_coalitions;
use dhondt::report::{display_name_of, group_lines, party_ranking, GroupLine};
use dhondt::votes::VoteTable;

fn line(shown: &str, id: &str, nested: bool) -> GroupLine {
    GroupLine { shown: shown.to_string(), id: id.to_string(), nested }
}

fn ranked_pairs(pairs: &[(&str, u64)]) -> Vec<(String, u64)> {
    pairs.iter().map(|(id, seats)| (id.to_string(), *seats)).collect()
}

#[test]
fn display_name_joins_with_plus() {
    assert_eq!(display_name_of(&vec!["CV".to_string(), "DO".to_string()]), "CV+DO");
    assert_eq!(display_name_of(&vec!["A".to_string()]), "A");
    assert_eq!(display_name_of(&vec!["A".to_string(), "B".to_string(), "C".to_string()]), "A+B+C");
    assert_eq!(display_name_of(&Vec::new()), "");
}

#[test]
fn single_parties_have_no_group_line() {
    assert_eq!(group_lines(&parse_coalitions("A B C")), Vec::<GroupLine>::new());
}

#[test]
fn groups_of_the_sample_hierarchy() {
    assert_eq!(
        group_lines(&parse_coalitions("A CV+DO BFØ")),
        vec![
            line("CV+DO", "CVDO", false),
            line("CV", "CV", true),
            line("DO", "DO", true),
            line("BFØ", "BFØ", false),
        ]
    );
}

#[test]
fn single_party_coalitions_are_not_nested() {
    assert_eq!(
        group_lines(&parse_coalitions("A+B AB+C")),
        vec![line("A+B", "AB", false), line("AB+C", "ABC", false), line("AB", "AB", true)]
    );
}

#[test]
fn group_without_parties_is_shown() {
    assert_eq!(group_lines(&parse_coalitions("")), vec![line("", "", false)]);
}

#[test]
fn entries_are_ranked_by_seats_then_identifier() {
    let mut held = SeatDistribution::new();
    held.insert("O".to_string(), 0);
    held.insert("V".to_string(), 1);
    held.insert("C".to_string(), 3);
    held.insert("D".to_string(), 0);
    held.insert("A".to_string(), 17);
    held.insert("B".to_string(), 3);
    assert_eq!(
        party_ranking(&held),
        ranked_pairs(&[("A", 17), ("B", 3), ("C", 3), ("V", 1), ("D", 0), ("O", 0)])
    );
    assert_eq!(party_ranking(&SeatDistribution::new()), Vec::new());
}

#[test]
fn report_of_the_sample_hierarchy() {
    let coalitions = parse_coalitions("A CV+DO");
    let mut votes = VoteTable::new();
    for (party, count) in [('A', 21343u64), ('C', 3163), ('V', 1902), ('D', 901), ('O', 217)] {
        votes.insert(party, count);
    }
    let mut seats = calculate_seats(21, &votes, &coalitions).unwrap();
    let mut shown = Vec::new();
    for group in group_lines(&coalitions) {
        shown.push((group.shown, seats.remove(&group.id).unwrap()));
    }
    assert_eq!(shown, ranked_pairs(&[("CV+DO", 4), ("CV", 4), ("DO", 0)]));
    assert_eq!(
        party_ranking(&seats),
        ranked_pairs(&[("A", 17), ("C", 3), ("V", 1), ("D", 0), ("O", 0)])
    );
}

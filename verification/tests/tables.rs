use dhondt::distribution::SeatDistribution;
use dhondt::error::AllocationError;
use dhondt::levels::{
    apportion_levels, checked_total, find_without_votes, party_ballots, tally_votes, Levels,
};
use dhondt::records::{coalition_entries, mega_entries, merge, party_entries};
use dhondt::text::{chars_of, label_of, place_of, Place};
use dhondt::votes::VoteTable;

fn counted(pairs: &[(char, u64)]) -> VoteTable {
    let mut votes = VoteTable::new();
    for (party, count) in pairs {
        votes.insert(*party, *count);
    }
    votes
}

fn grouped(groups: &[&[&str]]) -> Vec<Vec<String>> {
    groups.iter().map(|mega| mega.iter().map(|name| name.to_string()).collect()).collect()
}

fn paired(pairs: &[(&str, u64)]) -> Vec<(String, u64)> {
    pairs.iter().map(|(id, seats)| (id.to_string(), *seats)).collect()
}

#[test]
fn distribution_lists_identifiers_in_ascending_order() {
    let mut held = SeatDistribution::new();
    assert_eq!(held.len(), 0);
    assert_eq!(held.insert("CV".to_string(), 4), None);
    assert_eq!(held.insert("A".to_string(), 17), None);
    assert_eq!(held.insert("Ø".to_string(), 1), None);
    assert_eq!(held.insert("C".to_string(), 3), None);
    assert_eq!(held.insert("".to_string(), 9), None);
    assert_eq!(held.entries(), paired(&[("", 9), ("A", 17), ("C", 3), ("CV", 4), ("Ø", 1)]));
    assert_eq!(held.len(), 5);
}

#[test]
fn distribution_replaces_and_reports_the_previous_seats() {
    let mut held = SeatDistribution::new();
    assert_eq!(held.insert("A".to_string(), 0), None);
    assert_eq!(held.insert("A".to_string(), 5), Some(0));
    assert_eq!(held.get("A"), Some(5));
    assert_eq!(held.get("B"), None);
    assert!(held.contains_key("A"));
    assert!(!held.contains_key("AA"));
    assert_eq!(held.len(), 1);
}

#[test]
fn distribution_removes_entries() {
    let mut held = SeatDistribution::new();
    held.insert("A".to_string(), 1);
    held.insert("B".to_string(), 2);
    held.insert("C".to_string(), 3);
    assert_eq!(held.remove("B"), Some(2));
    assert_eq!(held.remove("B"), None);
    assert_eq!(held.entries(), paired(&[("A", 1), ("C", 3)]));
}

#[test]
fn record_accepts_a_repeated_count() {
    let mut held = SeatDistribution::new();
    assert_eq!(held.record("AB".to_string(), 4), Ok(()));
    assert_eq!(held.record("AB".to_string(), 4), Ok(()));
    assert_eq!(held.entries(), paired(&[("AB", 4)]));
}

#[test]
fn record_refuses_a_different_count() {
    let mut held = SeatDistribution::new();
    assert_eq!(held.record("AB".to_string(), 4), Ok(()));
    assert_eq!(
        held.record("AB".to_string(), 5),
        Err(AllocationError::Mismatch { id: "AB".to_string(), before: 4, after: 5 })
    );
    assert_eq!(held.get("AB"), Some(4));
}

#[test]
fn merge_reports_the_first_conflict() {
    let merged = merge(&paired(&[("A", 1), ("B", 2), ("A", 1), ("B", 3), ("A", 7)]));
    assert_eq!(
        merged,
        Err(AllocationError::Mismatch { id: "B".to_string(), before: 2, after: 3 })
    );
}

#[test]
fn merge_builds_the_distribution() {
    let merged = merge(&paired(&[("B", 2), ("A", 1), ("B", 2)])).unwrap();
    assert_eq!(merged.entries(), paired(&[("A", 1), ("B", 2)]));
    assert_eq!(merge(&Vec::new()).unwrap().len(), 0);
}

#[test]
fn identifiers_are_ordered_by_code_point() {
    assert_eq!(place_of("A", "B"), Place::Before);
    assert_eq!(place_of("B", "A"), Place::After);
    assert_eq!(place_of("AB", "AB"), Place::Same);
    assert_eq!(place_of("A", "AB"), Place::Before);
    assert_eq!(place_of("AB", "A"), Place::After);
    assert_eq!(place_of("", "A"), Place::Before);
    assert_eq!(place_of("", ""), Place::Same);
    assert_eq!(place_of("Z", "a"), Place::Before);
    assert_eq!(place_of("z", "Ø"), Place::Before);
    assert_eq!(place_of("Ø", "\u{10000}"), Place::Before);
}

#[test]
fn characters_of_a_string() {
    assert_eq!(chars_of("BFØ"), vec!['B', 'F', 'Ø']);
    assert_eq!(chars_of(""), Vec::<char>::new());
    assert_eq!(label_of("BFØ", 2), "Ø");
    assert_eq!(label_of("BFØ", 0), "B");
}

#[test]
fn vote_table_holds_the_latest_count() {
    let mut votes = VoteTable::new();
    assert_eq!(votes.get('A'), None);
    assert_eq!(votes.insert('A', 3), None);
    assert_eq!(votes.insert('A', 8), Some(3));
    assert_eq!(votes.insert('Ø', 1), None);
    assert_eq!(votes.get('A'), Some(8));
    assert_eq!(votes.get('Ø'), Some(1));
    assert_eq!(votes.get('B'), None);
}

#[test]
fn vote_table_knows_its_parties() {
    let votes = counted(&[('A', 1), ('B', 2)]);
    assert!(votes.all_listed(&vec!['B', 'A']));
    assert!(votes.all_listed(&vec!['A', 'B', 'C', 'A']));
    assert!(!votes.all_listed(&vec!['A']));
    assert!(!votes.all_listed(&vec!['A', 'A', 'C']));
    assert!(!votes.all_listed(&Vec::new()));
    assert!(VoteTable::new().all_listed(&Vec::new()));
}

#[test]
fn totals_are_checked() {
    assert_eq!(checked_total(&vec![]), Some(0));
    assert_eq!(checked_total(&vec![1, 2, 3]), Some(6));
    assert_eq!(checked_total(&vec![u64::MAX - 1, 1]), Some(u64::MAX));
    assert_eq!(checked_total(&vec![u64::MAX, 1]), None);
    assert_eq!(checked_total(&vec![u64::MAX, 0, 1, 5]), None);
}

#[test]
fn ballots_follow_the_coalition() {
    let votes = counted(&[('A', 1), ('B', 2), ('C', 3)]);
    assert_eq!(party_ballots(&votes, "CAB"), Ok(vec![3, 1, 2]));
    assert_eq!(party_ballots(&votes, ""), Ok(vec![]));
    assert_eq!(party_ballots(&votes, "AXBY"), Err('X'));
    assert_eq!(find_without_votes(&votes, &vec!['A', 'Y', 'X']), Some('Y'));
    assert_eq!(find_without_votes(&votes, &vec!['A', 'B']), None);
}

#[test]
fn votes_are_tallied_by_level() {
    let votes = counted(&[('A', 21343), ('C', 3163), ('V', 1902), ('D', 901), ('O', 217)]);
    let tally = tally_votes(&votes, &grouped(&[&["A"], &["CV", "DO"]])).unwrap();
    assert_eq!(
        tally,
        Levels {
            megas: vec![21343, 6183],
            coalitions: vec![vec![21343], vec![5065, 1118]],
            parties: vec![vec![vec![21343]], vec![vec![3163, 1902], vec![901, 217]]],
        }
    );
}

#[test]
fn tally_reports_the_first_fault() {
    let votes = counted(&[('A', u64::MAX), ('B', 1), ('Z', 0)]);
    assert_eq!(tally_votes(&votes, &grouped(&[&["AB", ""]])), Err(AllocationError::EmptyGroup));
    assert_eq!(
        tally_votes(&votes, &grouped(&[&["AB", "QR"]])),
        Err(AllocationError::MissingVotes('Q'))
    );
    assert_eq!(tally_votes(&votes, &grouped(&[&["AB"]])), Err(AllocationError::UnlistedParty));
    assert_eq!(
        tally_votes(&votes, &grouped(&[&["AB"], &["Z"]])),
        Err(AllocationError::TooManyVotes)
    );
}

#[test]
fn seats_are_apportioned_top_down() {
    let tally = Levels {
        megas: vec![21343, 6183],
        coalitions: vec![vec![21343], vec![5065, 1118]],
        parties: vec![vec![vec![21343]], vec![vec![3163, 1902], vec![901, 217]]],
    };
    assert_eq!(
        apportion_levels(21, &tally),
        Levels {
            megas: vec![17, 4],
            coalitions: vec![vec![17], vec![4, 0]],
            parties: vec![vec![vec![17]], vec![vec![3, 1], vec![0, 0]]],
        }
    );
}

#[test]
fn levels_are_written_out_under_their_names() {
    let coalitions = grouped(&[&["A"], &["CV", "DO"]]);
    let seats = Levels {
        megas: vec![17, 4],
        coalitions: vec![vec![17], vec![4, 0]],
        parties: vec![vec![vec![17]], vec![vec![3, 1], vec![0, 0]]],
    };
    assert_eq!(mega_entries(&coalitions, &seats), paired(&[("A", 17), ("CVDO", 4)]));
    assert_eq!(
        coalition_entries(&coalitions, &seats),
        paired(&[("A", 17), ("CV", 4), ("DO", 0)])
    );
    assert_eq!(
        party_entries(&coalitions, &seats),
        paired(&[("A", 17), ("C", 3), ("V", 1), ("D", 0), ("O", 0)])
    );
}

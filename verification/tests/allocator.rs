use dhondt::allocate::calculate_seats;
use dhondt::distribution::SeatDistribution;
use dhondt::error::AllocationError;
use dhondt::parse::parse_coalitions;
use dhondt::votes::VoteTable;

fn table_of(pairs: &[(char, u64)]) -> VoteTable {
    let mut votes = VoteTable::new();
    for (party, count) in pairs {
        votes.insert(*party, *count);
    }
    votes
}

fn groups_of(groups: &[&[&str]]) -> Vec<Vec<String>> {
    groups.iter().map(|mega| mega.iter().map(|name| name.to_string()).collect()).collect()
}

fn listing_of(distribution: &SeatDistribution) -> Vec<(String, u64)> {
    distribution.entries()
}

fn pairs_of(pairs: &[(&str, u64)]) -> Vec<(String, u64)> {
    pairs.iter().map(|(id, seats)| (id.to_string(), *seats)).collect()
}

fn sample_votes() -> VoteTable {
    table_of(&[('A', 21343), ('C', 3163), ('V', 1902), ('D', 901), ('O', 217)])
}

#[test]
fn sample_hierarchy_five_parties() {
    let coalitions = parse_coalitions("A CV+DO");
    let result = calculate_seats(21, &sample_votes(), &coalitions).unwrap();
    assert_eq!(
        listing_of(&result),
        pairs_of(&[
            ("A", 17),
            ("C", 3),
            ("CV", 4),
            ("CVDO", 4),
            ("D", 0),
            ("DO", 0),
            ("O", 0),
            ("V", 1),
        ])
    );
}

#[test]
fn sample_hierarchy_is_reproducible() {
    let coalitions = parse_coalitions("A CV+DO");
    let first = calculate_seats(21, &sample_votes(), &coalitions).unwrap();
    let second = calculate_seats(21, &sample_votes(), &coalitions).unwrap();
    assert_eq!(first, second);
    assert_eq!(listing_of(&first), listing_of(&second));
}

#[test]
fn sample_hierarchy_eight_parties() {
    let coalitions = parse_coalitions("A CV+DO BFØ");
    let votes = table_of(&[
        ('A', 21343),
        ('C', 3163),
        ('V', 1902),
        ('D', 901),
        ('O', 217),
        ('B', 2163),
        ('F', 3502),
        ('Ø', 1502),
    ]);
    let result = calculate_seats(21, &votes, &coalitions).unwrap();
    assert_eq!(
        listing_of(&result),
        pairs_of(&[
            ("A", 13),
            ("B", 1),
            ("BFØ", 4),
            ("C", 3),
            ("CV", 4),
            ("CVDO", 4),
            ("D", 0),
            ("DO", 0),
            ("F", 2),
            ("O", 0),
            ("V", 1),
            ("Ø", 1),
        ])
    );
}

#[test]
fn levels_conserve_seats() {
    let coalitions = groups_of(&[&["A", "B"], &["C"]]);
    let votes = table_of(&[('A', 60), ('B', 30), ('C', 10)]);
    let result = calculate_seats(10, &votes, &coalitions).unwrap();
    assert_eq!(result.get("AB"), Some(9));
    assert_eq!(result.get("C"), Some(1));
    assert_eq!(result.get("A"), Some(6));
    assert_eq!(result.get("B"), Some(3));
    assert_eq!(result.get("AB").unwrap() + result.get("C").unwrap(), 10);
    assert_eq!(result.get("A").unwrap() + result.get("B").unwrap(), result.get("AB").unwrap());
}

#[test]
fn coalition_of_several_parties_splits_its_seats() {
    let coalitions = groups_of(&[&["AB"], &["C"]]);
    let votes = table_of(&[('A', 60), ('B', 30), ('C', 10)]);
    let result = calculate_seats(10, &votes, &coalitions).unwrap();
    assert_eq!(
        listing_of(&result),
        pairs_of(&[("A", 6), ("AB", 9), ("B", 3), ("C", 1)])
    );
}

#[test]
fn no_seats_to_distribute() {
    let coalitions = groups_of(&[&["AB"], &["C"]]);
    let votes = table_of(&[('A', 60), ('B', 30), ('C', 10)]);
    let result = calculate_seats(0, &votes, &coalitions).unwrap();
    assert_eq!(
        listing_of(&result),
        pairs_of(&[("A", 0), ("AB", 0), ("B", 0), ("C", 0)])
    );
}

#[test]
fn single_party_takes_all() {
    let coalitions = groups_of(&[&["A"]]);
    let votes = table_of(&[('A', 0)]);
    let result = calculate_seats(7, &votes, &coalitions).unwrap();
    assert_eq!(listing_of(&result), pairs_of(&[("A", 7)]));
    assert_eq!(result.len(), 1);
}

#[test]
fn every_voted_party_is_a_key_and_nothing_else_is() {
    let coalitions = parse_coalitions("A CV+DO");
    let result = calculate_seats(21, &sample_votes(), &coalitions).unwrap();
    for party in ["A", "C", "V", "D", "O"] {
        assert!(result.contains_key(party));
    }
    let keys: Vec<String> = listing_of(&result).into_iter().map(|(id, _)| id).collect();
    assert_eq!(keys, vec!["A", "C", "CV", "CVDO", "D", "DO", "O", "V"]);
    assert_eq!(result.len(), 8);
}

#[test]
fn empty_hierarchy_is_refused() {
    let votes = table_of(&[]);
    assert_eq!(calculate_seats(3, &votes, &Vec::new()), Err(AllocationError::EmptyGroup));
    assert_eq!(calculate_seats(0, &votes, &Vec::new()), Err(AllocationError::EmptyGroup));
}

#[test]
fn empty_mega_coalition_is_refused() {
    let votes = table_of(&[('A', 1)]);
    let coalitions: Vec<Vec<String>> = vec![vec!["A".to_string()], vec![]];
    assert_eq!(calculate_seats(3, &votes, &coalitions), Err(AllocationError::EmptyGroup));
}

#[test]
fn empty_coalition_is_refused() {
    let votes = table_of(&[('A', 1)]);
    let coalitions = parse_coalitions("A ");
    assert_eq!(coalitions, groups_of(&[&["A"], &[""]]));
    assert_eq!(calculate_seats(3, &votes, &coalitions), Err(AllocationError::EmptyGroup));
    assert_eq!(calculate_seats(0, &votes, &coalitions), Err(AllocationError::EmptyGroup));
}

#[test]
fn party_without_votes_is_refused() {
    let votes = table_of(&[('A', 1), ('C', 4)]);
    let coalitions = groups_of(&[&["A", "BX"], &["C"]]);
    assert_eq!(calculate_seats(3, &votes, &coalitions), Err(AllocationError::MissingVotes('B')));
}

#[test]
fn votes_without_party_are_refused() {
    let votes = table_of(&[('A', 1), ('B', 4), ('Z', 2)]);
    let coalitions = groups_of(&[&["A", "B"]]);
    assert_eq!(calculate_seats(3, &votes, &coalitions), Err(AllocationError::UnlistedParty));
}

#[test]
fn missing_votes_are_reported_before_unlisted_parties() {
    let votes = table_of(&[('A', 1), ('Z', 2)]);
    let coalitions = groups_of(&[&["A", "B"]]);
    assert_eq!(calculate_seats(3, &votes, &coalitions), Err(AllocationError::MissingVotes('B')));
}

#[test]
fn overflowing_votes_are_refused() {
    let votes = table_of(&[('A', u64::MAX), ('B', 1), ('C', 5)]);
    let together = groups_of(&[&["A", "B"], &["C"]]);
    assert_eq!(calculate_seats(3, &votes, &together), Err(AllocationError::TooManyVotes));
    let joined = groups_of(&[&["AB"], &["C"]]);
    assert_eq!(calculate_seats(3, &votes, &joined), Err(AllocationError::TooManyVotes));
    let apart = groups_of(&[&["A"], &["B"], &["C"]]);
    let result = calculate_seats(3, &votes, &apart).unwrap();
    assert_eq!(result.get("A"), Some(3));
}

#[test]
fn largest_sum_that_fits_is_accepted() {
    let votes = table_of(&[('A', u64::MAX - 1), ('B', 1)]);
    let coalitions = groups_of(&[&["AB"]]);
    let result = calculate_seats(4, &votes, &coalitions).unwrap();
    assert_eq!(listing_of(&result), pairs_of(&[("A", 4), ("AB", 4), ("B", 0)]));
}

#[test]
fn party_named_twice_can_contradict_itself() {
    let votes = table_of(&[('A', 5), ('B', 1)]);
    let coalitions = groups_of(&[&["AB"], &["A"]]);
    assert_eq!(
        calculate_seats(3, &votes, &coalitions),
        Err(AllocationError::Mismatch { id: "A".to_string(), before: 1, after: 2 })
    );
    let nested = groups_of(&[&["A", "B"], &["A"]]);
    assert_eq!(
        calculate_seats(1, &votes, &nested),
        Err(AllocationError::Mismatch { id: "A".to_string(), before: 0, after: 1 })
    );
}

#[test]
fn party_named_twice_may_still_agree() {
    let votes = table_of(&[('A', 5)]);
    let coalitions = groups_of(&[&["AA"]]);
    let result = calculate_seats(2, &votes, &coalitions).unwrap();
    assert_eq!(listing_of(&result), pairs_of(&[("A", 1), ("AA", 2)]));
    assert_eq!(
        calculate_seats(3, &votes, &coalitions),
        Err(AllocationError::Mismatch { id: "A".to_string(), before: 2, after: 1 })
    );
}

#[test]
fn tie_between_mega_coalitions_goes_to_the_first() {
    let votes = table_of(&[('A', 5), ('B', 5)]);
    let coalitions = groups_of(&[&["A"], &["B"]]);
    let result = calculate_seats(1, &votes, &coalitions).unwrap();
    assert_eq!(listing_of(&result), pairs_of(&[("A", 1), ("B", 0)]));
}

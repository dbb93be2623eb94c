use dhondt::apportion::seats;
use dhondt::quotient::quotients_dhondts;

#[test]
fn first_entry_wins_the_tie() {
    assert_eq!(seats(1, &[5, 5]), vec![1, 0]);
}

#[test]
fn tied_entries_share_two_seats() {
    assert_eq!(seats(2, &[5, 5]), vec![1, 1]);
}

#[test]
fn three_way_tie_favours_input_order() {
    assert_eq!(seats(4, &[7, 7, 7]), vec![2, 1, 1]);
    assert_eq!(seats(3, &[0, 0, 0]), vec![3, 0, 0]);
}

#[test]
fn textbook_allocation() {
    assert_eq!(seats(8, &[100, 80, 30, 20]), vec![4, 3, 1, 0]);
    assert_eq!(seats(7, &[340000, 280000, 160000, 60000]), vec![3, 3, 1, 0]);
    assert_eq!(seats(10, &[6, 3, 1]), vec![6, 3, 1]);
}

#[test]
fn floor_quotients_decide() {
    // 2/2 = 1 ties with 1/1 = 1, and the first entry is served first.
    assert_eq!(seats(3, &[2, 1]), vec![2, 1]);
}

#[test]
fn seats_are_conserved() {
    let votes = [21343u64, 6183, 7167, 12, 0];
    for total in [0u64, 1, 2, 5, 21, 100] {
        let awarded = seats(total, &votes);
        assert_eq!(awarded.len(), votes.len());
        assert_eq!(awarded.iter().sum::<u64>(), total);
    }
}

#[test]
fn single_entry_takes_every_seat() {
    assert_eq!(seats(0, &[9]), vec![0]);
    assert_eq!(seats(17, &[9]), vec![17]);
    assert_eq!(seats(17, &[0]), vec![17]);
    assert_eq!(seats(u64::MAX, &[3]), vec![u64::MAX]);
}

#[test]
fn zero_seats_gives_all_zeros() {
    assert_eq!(seats(0, &[5, 3, 8]), vec![0, 0, 0]);
    assert_eq!(seats(0, &[0, 0]), vec![0, 0]);
}

#[test]
fn entry_without_votes_gets_nothing_beside_one_with_votes() {
    assert_eq!(seats(5, &[10, 0]), vec![5, 0]);
    assert_eq!(seats(5, &[0, 10]), vec![0, 5]);
}

#[test]
fn more_votes_never_cost_a_seat() {
    let mut votes = vec![40u64, 35, 25, 10];
    let mut last = seats(9, &votes)[2];
    for raised in [26u64, 30, 35, 36, 50, 400] {
        votes[2] = raised;
        let now = seats(9, &votes)[2];
        assert!(now >= last);
        last = now;
    }
    assert_eq!(last, 9);
}

#[test]
fn repeated_runs_agree() {
    let votes = [21343u64, 6183, 7167];
    assert_eq!(seats(21, &votes), seats(21, &votes));
    assert_eq!(seats(21, &votes), vec![13, 4, 4]);
}

#[test]
fn quotients_descend_by_divisor() {
    let mut cursor = quotients_dhondts(10);
    assert_eq!(cursor.next(), 10);
    assert_eq!(cursor.next(), 5);
    assert_eq!(cursor.next(), 3);
    assert_eq!(cursor.next(), 2);
    assert_eq!(cursor.next(), 2);
    assert_eq!(cursor.next(), 1);
}

#[test]
fn quotients_of_nothing_are_nothing() {
    let mut cursor = quotients_dhondts(0);
    assert_eq!(cursor.next(), 0);
    assert_eq!(cursor.next(), 0);
}

#[test]
fn quotients_reach_zero_past_the_votes() {
    let mut cursor = quotients_dhondts(3);
    assert_eq!(cursor.next(), 3);
    assert_eq!(cursor.next(), 1);
    assert_eq!(cursor.next(), 1);
    assert_eq!(cursor.next(), 0);
    assert_eq!(cursor.next(), 0);
}

#[test]
fn quotients_of_the_largest_count() {
    let mut cursor = quotients_dhondts(u64::MAX);
    assert_eq!(cursor.next(), u64::MAX);
    assert_eq!(cursor.next(), u64::MAX / 2);
    assert_eq!(cursor.next(), u64::MAX / 3);
}

#[test]
fn cursors_are_independent() {
    let mut a = quotients_dhondts(12);
    let mut b = a;
    assert_eq!(a.next(), 12);
    assert_eq!(a.next(), 6);
    assert_eq!(b.next(), 12);
}

//! Numbers by level of the hierarchy: one for each mega-coalition, one for each
//! coalition and one for each party. Votes are tallied into such numbers
//! bottom-up, and seats are apportioned into such numbers top-down.

use vstd::prelude::*;
use vstd::string::*;
use crate::apportion::{apportion, as_nats, seats, total_of};
use crate::error::AllocationError;
use crate::hierarchy::{
    has_empty_group, lemma_parties_hold, mega_id, parties, parties_of, some_group_empty,
};
use crate::votes::VoteTable;

verus! {

/// One number for each mega-coalition, for each coalition of each
/// mega-coalition, and for each party of each coalition.
pub ghost struct LevelsView {
    pub megas: Seq<nat>,
    pub coalitions: Seq<Seq<nat>>,
    pub parties: Seq<Seq<Seq<nat>>>,
}

/// Votes or seats by level of the hierarchy, in the order of the hierarchy.
#[derive(Debug, PartialEq, Eq)]
pub struct Levels {
    pub megas: Vec<u64>,
    pub coalitions: Vec<Vec<u64>>,
    pub parties: Vec<Vec<Vec<u64>>>,
}

impl View for Levels {
    type V = LevelsView;

    open spec fn view(&self) -> LevelsView {
        LevelsView {
            megas: as_nats(self.megas@),
            coalitions: Seq::new(
                self.coalitions@.len(),
                |i: int| as_nats(self.coalitions@[i]@),
            ),
            parties: Seq::new(
                self.parties@.len(),
                |i: int|
                    Seq::new(self.parties@[i]@.len(), |j: int| as_nats(self.parties@[i]@[j]@)),
            ),
        }
    }
}

impl LevelsView {
    /// The three levels describe one hierarchy, in which no group is empty.
    pub open spec fn is_nested(self) -> bool {
        &&& self.megas.len() > 0
        &&& self.coalitions.len() == self.megas.len()
        &&& self.parties.len() == self.megas.len()
        &&& forall|i: int|
            0 <= i < self.megas.len() ==> (#[trigger] self.coalitions[i]).len() > 0
                && self.parties[i].len() == self.coalitions[i].len()
        &&& forall|i: int, j: int|
            0 <= i < self.megas.len() && 0 <= j < self.coalitions[i].len() ==> (
            #[trigger] self.parties[i][j]).len() > 0
    }
}

/// The votes of the parties of a group, in the order of the group.
pub open spec fn ballots(votes: Map<char, nat>, group: Seq<char>) -> Seq<nat> {
    Seq::new(group.len(), |k: int| votes[group[k]])
}

/// The votes of a group: the sum of the votes of its parties.
pub open spec fn votes_of(votes: Map<char, nat>, group: Seq<char>) -> nat {
    total_of(ballots(votes, group))
}

/// The votes of every mega-coalition, coalition and party of a hierarchy.
pub open spec fn tallied(votes: Map<char, nat>, hierarchy: Seq<Seq<Seq<char>>>) -> LevelsView {
    LevelsView {
        megas: Seq::new(hierarchy.len(), |i: int| votes_of(votes, mega_id(hierarchy[i]))),
        coalitions: Seq::new(
            hierarchy.len(),
            |i: int| Seq::new(hierarchy[i].len(), |j: int| votes_of(votes, hierarchy[i][j])),
        ),
        parties: Seq::new(
            hierarchy.len(),
            |i: int| Seq::new(hierarchy[i].len(), |j: int| ballots(votes, hierarchy[i][j])),
        ),
    }
}

/// The seats of every mega-coalition, coalition and party: the seats to
/// distribute are apportioned among the mega-coalitions, the seats of each
/// mega-coalition among its coalitions, and the seats of each coalition among
/// its parties.
pub open spec fn apportioned(total: nat, tally: LevelsView) -> LevelsView {
    let megas = apportion(tally.megas, total);
    let coalitions = Seq::new(
        tally.coalitions.len(),
        |i: int| apportion(tally.coalitions[i], megas[i]),
    );
    let parties = Seq::new(
        tally.parties.len(),
        |i: int|
            Seq::new(
                tally.parties[i].len(),
                |j: int| apportion(tally.parties[i][j], coalitions[i][j]),
            ),
    );
    LevelsView { megas, coalitions, parties }
}

/// Some party of the hierarchy has no votes recorded.
pub open spec fn lacks_votes(votes: Map<char, nat>, hierarchy: Seq<Seq<Seq<char>>>) -> bool {
    exists|n: int| 0 <= n < parties(hierarchy).len() && !votes.contains_key(#[trigger] parties(hierarchy)[n])
}

/// `party` is the first party of `group`, in reading order, without votes.
pub open spec fn first_without_votes(votes: Map<char, nat>, group: Seq<char>, party: char) -> bool {
    exists|n: int|
        0 <= n < group.len() && #[trigger] group[n] == party && !votes.contains_key(party) && forall|
            m: int,
        | 0 <= m < n ==> votes.contains_key(#[trigger] group[m])
}

/// Some party has votes recorded and no place in the hierarchy.
pub open spec fn has_unlisted(votes: Map<char, nat>, hierarchy: Seq<Seq<Seq<char>>>) -> bool {
    exists|party: char| #[trigger] votes.contains_key(party) && !parties(hierarchy).contains(party)
}

/// The votes of some mega-coalition do not fit a `u64`.
pub open spec fn overflows(votes: Map<char, nat>, hierarchy: Seq<Seq<Seq<char>>>) -> bool {
    exists|i: int|
        0 <= i < hierarchy.len() && votes_of(votes, mega_id(#[trigger] hierarchy[i])) > u64::MAX
}

/// Votes and hierarchy fit each other: there is something to apportion at every
/// level, the parties with votes are the parties of the hierarchy, and every
/// vote total can be held.
pub open spec fn admissible(votes: Map<char, nat>, hierarchy: Seq<Seq<Seq<char>>>) -> bool {
    &&& !has_empty_group(hierarchy)
    &&& !lacks_votes(votes, hierarchy)
    &&& !has_unlisted(votes, hierarchy)
    &&& !overflows(votes, hierarchy)
}

/// The sum of the first `k + 1` numbers is the sum of the first `k` and the next.
pub proof fn lemma_total_of_step(s: Seq<nat>, k: int)
    requires
        0 <= k < s.len(),
    ensures
        total_of(s.take(k + 1)) == total_of(s.take(k)) + s[k],
{
    assert(s.take(k + 1).drop_last() =~= s.take(k));
}

/// No part of a list of natural numbers sums to more than the whole.
pub proof fn lemma_total_of_prefix(s: Seq<nat>, k: int)
    requires
        0 <= k <= s.len(),
    ensures
        total_of(s.take(k)) <= total_of(s),
        k < s.len() ==> total_of(s.take(k)) + s[k] <= total_of(s),
    decreases s.len() - k,
{
    if k < s.len() {
        lemma_total_of_step(s, k);
        lemma_total_of_prefix(s, k + 1);
    } else {
        assert(s.take(k) =~= s);
    }
}

/// The sum of two lists, one after the other, is the sum of their sums.
pub proof fn lemma_total_of_concat(a: Seq<nat>, b: Seq<nat>)
    ensures
        total_of(a + b) == total_of(a) + total_of(b),
    decreases b.len(),
{
    if b.len() == 0 {
        assert(a + b =~= a);
    } else {
        lemma_total_of_concat(a, b.drop_last());
        assert((a + b).drop_last() =~= a + b.drop_last());
    }
}

/// The votes of a mega-coalition are the votes of its coalitions, summed.
pub proof fn lemma_votes_of_mega(votes: Map<char, nat>, mega: Seq<Seq<char>>)
    ensures
        votes_of(votes, mega_id(mega)) == total_of(
            Seq::new(mega.len(), |j: int| votes_of(votes, mega[j])),
        ),
    decreases mega.len(),
{
    let sums = Seq::new(mega.len(), |j: int| votes_of(votes, mega[j]));
    if mega.len() == 0 {
        assert(ballots(votes, mega_id(mega)) =~= Seq::<nat>::empty());
    } else {
        let rest = mega.drop_last();
        lemma_votes_of_mega(votes, rest);
        assert(sums.drop_last() =~= Seq::new(rest.len(), |j: int| votes_of(votes, rest[j])));
        assert(ballots(votes, mega_id(mega)) =~= ballots(votes, mega_id(rest)) + ballots(
            votes,
            mega.last(),
        ));
        lemma_total_of_concat(ballots(votes, mega_id(rest)), ballots(votes, mega.last()));
    }
}

/// The sum of `numbers`, unless it is more than a `u64` holds.
pub fn checked_total(numbers: &Vec<u64>) -> (sum: Option<u64>)
    ensures
        match sum {
            Some(t) => t == total_of(as_nats(numbers@)),
            None => total_of(as_nats(numbers@)) > u64::MAX,
        },
{
    let ghost list = as_nats(numbers@);
    let mut sum: u64 = 0;
    let mut k: usize = 0;
    assert(list.take(0) =~= Seq::<nat>::empty());
    while k < numbers.len()
        invariant
            k <= numbers@.len(),
            list == as_nats(numbers@),
            sum == total_of(list.take(k as int)),
        decreases numbers@.len() - k,
    {
        proof {
            lemma_total_of_step(list, k as int);
            lemma_total_of_prefix(list, k as int);
        }
        match sum.checked_add(numbers[k]) {
            Some(more) => {
                sum = more;
            },
            None => {
                return None;
            },
        }
        k += 1;
    }
    assert(list.take(numbers@.len() as int) =~= list);
    Some(sum)
}

/// The first of `group`, in reading order, for which no votes are recorded.
pub fn find_without_votes(votes: &VoteTable, group: &Vec<char>) -> (missing: Option<char>)
    ensures
        match missing {
            Some(party) => first_without_votes(votes@, group@, party),
            None => forall|n: int| 0 <= n < group@.len() ==> votes@.contains_key(#[trigger] group@[n]),
        },
{
    let mut n: usize = 0;
    while n < group.len()
        invariant
            n <= group@.len(),
            forall|m: int| 0 <= m < n ==> votes@.contains_key(#[trigger] group@[m]),
        decreases group@.len() - n,
    {
        if votes.get(group[n]).is_none() {
            return Some(group[n]);
        }
        n += 1;
    }
    None
}

/// The votes of the parties of one coalition, in order, or the first of them
/// for which no votes are recorded.
pub fn party_ballots(votes: &VoteTable, coalition: &str) -> (found: Result<Vec<u64>, char>)
    ensures
        match found {
            Ok(list) => {
                &&& as_nats(list@) == ballots(votes@, coalition@)
                &&& forall|k: int|
                    0 <= k < coalition@.len() ==> votes@.contains_key(#[trigger] coalition@[k])
            },
            Err(party) => first_without_votes(votes@, coalition@, party),
        },
{
    let n = coalition.unicode_len();
    let mut list: Vec<u64> = Vec::new();
    let mut k: usize = 0;
    while k < n
        invariant
            k <= n,
            n == coalition@.len(),
            list@.len() == k,
            forall|m: int| 0 <= m < k ==> votes@.contains_key(#[trigger] coalition@[m]),
            forall|m: int| 0 <= m < k ==> list@[m] == votes@[coalition@[m]],
        decreases n - k,
    {
        let party = coalition.get_char(k);
        match votes.get(party) {
            Some(count) => {
                list.push(count);
            },
            None => {
                return Err(party);
            },
        }
        k += 1;
    }
    assert(as_nats(list@) =~= ballots(votes@, coalition@));
    Ok(list)
}

/// Tallies the votes of a hierarchy: for every coalition the votes of each of
/// its parties and their sum, and for every mega-coalition the sum of the votes
/// of its coalitions.
///
/// Of several faults the first of these is reported: a group without members,
/// then a party of the hierarchy without votes (the first in reading order),
/// then votes for a party outside the hierarchy, then a sum too large to hold.
pub fn tally_votes(votes: &VoteTable, coalitions: &Vec<Vec<String>>) -> (outcome: Result<
    Levels,
    AllocationError,
>)
    ensures
        match outcome {
            Ok(tally) => {
                &&& admissible(votes@, coalitions.deep_view())
                &&& tally@ == tallied(votes@, coalitions.deep_view())
                &&& tally@.is_nested()
            },
            Err(AllocationError::EmptyGroup) => has_empty_group(coalitions.deep_view()),
            Err(AllocationError::MissingVotes(party)) => {
                &&& !has_empty_group(coalitions.deep_view())
                &&& first_without_votes(votes@, parties(coalitions.deep_view()), party)
            },
            Err(AllocationError::UnlistedParty) => {
                &&& !has_empty_group(coalitions.deep_view())
                &&& !lacks_votes(votes@, coalitions.deep_view())
                &&& has_unlisted(votes@, coalitions.deep_view())
            },
            Err(AllocationError::TooManyVotes) => {
                &&& !has_empty_group(coalitions.deep_view())
                &&& !lacks_votes(votes@, coalitions.deep_view())
                &&& !has_unlisted(votes@, coalitions.deep_view())
                &&& overflows(votes@, coalitions.deep_view())
            },
            Err(AllocationError::Mismatch { .. }) => false,
        },
{
    let ghost hierarchy = coalitions.deep_view();
    if some_group_empty(coalitions) {
        return Err(AllocationError::EmptyGroup);
    }
    let listed = parties_of(coalitions);
    match find_without_votes(votes, &listed) {
        Some(party) => {
            return Err(AllocationError::MissingVotes(party));
        },
        None => {},
    }
    if !votes.all_listed(&listed) {
        return Err(AllocationError::UnlistedParty);
    }
    let ghost goal = tallied(votes@, hierarchy);
    let mut megas: Vec<u64> = Vec::new();
    let mut by_coalition: Vec<Vec<u64>> = Vec::new();
    let mut by_party: Vec<Vec<Vec<u64>>> = Vec::new();
    let mut i: usize = 0;
    while i < coalitions.len()
        invariant
            i <= coalitions@.len(),
            hierarchy == coalitions.deep_view(),
            goal == tallied(votes@, hierarchy),
            !has_empty_group(hierarchy),
            !lacks_votes(votes@, hierarchy),
            !has_unlisted(votes@, hierarchy),
            megas@.len() == i,
            by_coalition@.len() == i,
            by_party@.len() == i,
            forall|a: int| 0 <= a < i ==> #[trigger] megas@[a] == goal.megas[a],
            forall|a: int| 0 <= a < i ==> as_nats((#[trigger] by_coalition@[a])@) == goal.coalitions[a],
            forall|a: int| 0 <= a < i ==> (#[trigger] by_party@[a])@.len() == hierarchy[a].len(),
            forall|a: int, b: int|
                0 <= a < i && 0 <= b < hierarchy[a].len() ==> as_nats(
                    (#[trigger] by_party@[a]@[b])@,
                ) == goal.parties[a][b],
        decreases coalitions@.len() - i,
    {
        let mega = &coalitions[i];
        let ghost rows = hierarchy[i as int];
        let mut sums: Vec<u64> = Vec::new();
        let mut lists: Vec<Vec<u64>> = Vec::new();
        let mut j: usize = 0;
        while j < mega.len()
            invariant
                j <= mega@.len(),
                i < coalitions@.len(),
                mega == coalitions@[i as int],
                hierarchy == coalitions.deep_view(),
                rows == hierarchy[i as int],
                goal == tallied(votes@, hierarchy),
                !has_empty_group(hierarchy),
                !lacks_votes(votes@, hierarchy),
                !has_unlisted(votes@, hierarchy),
                sums@.len() == j,
                lists@.len() == j,
                forall|b: int| 0 <= b < j ==> #[trigger] sums@[b] == votes_of(votes@, rows[b]),
                forall|b: int| 0 <= b < j ==> as_nats((#[trigger] lists@[b])@) == ballots(votes@, rows[b]),
            decreases mega@.len() - j,
        {
            let coalition = mega[j].as_str();
            assert(coalition@ == rows[j as int]);
            match party_ballots(votes, coalition) {
                Ok(list) => {
                    match checked_total(&list) {
                        Some(sum) => {
                            sums.push(sum);
                            lists.push(list);
                        },
                        None => {
                            proof {
                                lemma_votes_of_mega(votes@, rows);
                                let all = Seq::new(rows.len(), |b: int| votes_of(votes@, rows[b]));
                                lemma_total_of_prefix(all, j as int);
                                assert(votes_of(votes@, mega_id(hierarchy[i as int])) > u64::MAX);
                            }
                            return Err(AllocationError::TooManyVotes);
                        },
                    }
                },
                Err(party) => {
                    proof {
                        let k = choose|k: int|
                            0 <= k < coalition@.len() && #[trigger] coalition@[k] == party
                                && !votes@.contains_key(party);
                        lemma_parties_hold(hierarchy, i as int, j as int, k);
                        let n = choose|n: int|
                            0 <= n < parties(hierarchy).len() && parties(hierarchy)[n] == party;
                        assert(!votes@.contains_key(parties(hierarchy)[n]));
                    }
                    return Err(AllocationError::MissingVotes(party));
                },
            }
            j += 1;
        }
        proof {
            lemma_votes_of_mega(votes@, rows);
            assert(as_nats(sums@) =~= Seq::new(rows.len(), |b: int| votes_of(votes@, rows[b])));
            assert(as_nats(sums@) =~= goal.coalitions[i as int]);
        }
        match checked_total(&sums) {
            Some(sum) => {
                megas.push(sum);
                by_coalition.push(sums);
                by_party.push(lists);
            },
            None => {
                assert(votes_of(votes@, mega_id(hierarchy[i as int])) > u64::MAX);
                return Err(AllocationError::TooManyVotes);
            },
        }
        i += 1;
    }
    let tally = Levels { megas, coalitions: by_coalition, parties: by_party };
    proof {
        assert(tally@.megas =~= goal.megas);
        assert(tally@.coalitions =~= goal.coalitions);
        assert forall|a: int| 0 <= a < hierarchy.len() implies #[trigger] tally@.parties[a]
            =~= goal.parties[a] by {
            assert forall|b: int| 0 <= b < hierarchy[a].len() implies #[trigger] tally@.parties[a][b]
                == goal.parties[a][b] by {
                assert(as_nats(by_party@[a]@[b]@) == goal.parties[a][b]);
            }
        }
        assert(tally@.parties =~= goal.parties);
        assert(tally@ == goal);
        if overflows(votes@, hierarchy) {
            let a = choose|a: int|
                0 <= a < hierarchy.len() && votes_of(votes@, mega_id(#[trigger] hierarchy[a]))
                    > u64::MAX;
            assert(megas@[a] == goal.megas[a]);
        }
        assert forall|a: int| 0 <= a < tally@.megas.len() implies (#[trigger] tally@.coalitions[a]).len()
            > 0 && tally@.parties[a].len() == tally@.coalitions[a].len() by {
            assert(hierarchy[a].len() > 0);
        }
        assert forall|a: int, b: int|
            0 <= a < tally@.megas.len() && 0 <= b < tally@.coalitions[a].len() implies (
        #[trigger] tally@.parties[a][b]).len() > 0 by {
            assert(hierarchy[a][b].len() > 0);
        }
    }
    Ok(tally)
}

/// Apportions `total_seats` seats top-down: among the mega-coalitions by their
/// votes, then the seats of each mega-coalition among its coalitions, then the
/// seats of each coalition among its parties.
pub fn apportion_levels(total_seats: u64, tally: &Levels) -> (levels: Levels)
    requires
        tally@.is_nested(),
    ensures
        levels@ == apportioned(total_seats as nat, tally@),
{
    let ghost goal = apportioned(total_seats as nat, tally@);
    let megas = seats(total_seats, tally.megas.as_slice());
    let mut by_coalition: Vec<Vec<u64>> = Vec::new();
    let mut by_party: Vec<Vec<Vec<u64>>> = Vec::new();
    let mut i: usize = 0;
    while i < tally.coalitions.len()
        invariant
            i <= tally.coalitions@.len(),
            tally@.is_nested(),
            goal == apportioned(total_seats as nat, tally@),
            as_nats(megas@) == goal.megas,
            megas@.len() == tally.megas@.len(),
            by_coalition@.len() == i,
            by_party@.len() == i,
            forall|a: int| 0 <= a < i ==> as_nats((#[trigger] by_coalition@[a])@) == goal.coalitions[a],
            forall|a: int|
                0 <= a < i ==> (#[trigger] by_party@[a])@.len() == tally@.parties[a].len(),
            forall|a: int, b: int|
                0 <= a < i && 0 <= b < tally@.parties[a].len() ==> as_nats(
                    (#[trigger] by_party@[a]@[b])@,
                ) == goal.parties[a][b],
        decreases tally.coalitions@.len() - i,
    {
        assert(tally@.coalitions[i as int].len() > 0);
        assert(tally@.parties[i as int].len() == tally@.coalitions[i as int].len());
        let shares = seats(megas[i], tally.coalitions[i].as_slice());
        assert(as_nats(shares@) == goal.coalitions[i as int]);
        let groups = &tally.parties[i];
        let mut lists: Vec<Vec<u64>> = Vec::new();
        let mut j: usize = 0;
        while j < groups.len()
            invariant
                j <= groups@.len(),
                i < tally.coalitions@.len(),
                groups == tally.parties@[i as int],
                tally@.is_nested(),
                goal == apportioned(total_seats as nat, tally@),
                as_nats(shares@) == goal.coalitions[i as int],
                shares@.len() == groups@.len(),
                lists@.len() == j,
                forall|b: int|
                    0 <= b < j ==> as_nats((#[trigger] lists@[b])@) == goal.parties[i as int][b],
            decreases groups@.len() - j,
        {
            assert(tally@.parties[i as int][j as int].len() > 0);
            assert(as_nats(shares@)[j as int] == shares@[j as int]);
            let list = seats(shares[j], groups[j].as_slice());
            lists.push(list);
            j += 1;
        }
        by_coalition.push(shares);
        by_party.push(lists);
        i += 1;
    }
    let levels = Levels { megas, coalitions: by_coalition, parties: by_party };
    proof {
        assert(levels@.megas =~= goal.megas);
        assert(levels@.coalitions =~= goal.coalitions);
        assert forall|a: int| 0 <= a < goal.parties.len() implies #[trigger] levels@.parties[a]
            =~= goal.parties[a] by {
            assert forall|b: int| 0 <= b < goal.parties[a].len() implies #[trigger] levels@.parties[a][b]
                == goal.parties[a][b] by {
                assert(as_nats(by_party@[a]@[b]@) == goal.parties[a][b]);
            }
        }
        assert(levels@.parties =~= goal.parties);
    }
    levels
}

} // verus!

//! The hierarchical allocator: seats for every mega-coalition, coalition and
//! party of a hierarchy.

use vstd::prelude::*;
use crate::distribution::SeatDistribution;
use crate::error::AllocationError;
use crate::hierarchy::{has_empty_group, is_entity, parties, party_id};
use crate::hierarchy_laws::{
    conserves, lemma_distinct_parties_allocate, lemma_hierarchical_conservation,
    lemma_identifier_integrity,
};
use crate::laws::lemma_apportion_len;
use crate::levels::{
    admissible, apportion_levels, apportioned, first_without_votes, has_unlisted, lacks_votes,
    overflows, tallied, tally_votes,
};
use crate::votes::VoteTable;
use crate::records::{
    coalition_entries, fits, labelled, mega_entries, merge, merged, party_entries, record_views,
    Conflict,
};

verus! {

/// The seats of every mega-coalition, coalition and party of a hierarchy under
/// its identifier, or the first identifier that the three levels give two
/// different seat counts.
pub open spec fn allocation(
    total: nat,
    votes: Map<char, nat>,
    hierarchy: Seq<Seq<Seq<char>>>,
) -> Result<Map<Seq<char>, nat>, Conflict> {
    merged(labelled(hierarchy, apportioned(total, tallied(votes, hierarchy))))
}

/// The seats of a hierarchy without empty groups are laid out as the hierarchy
/// is.
pub proof fn lemma_apportioned_fits(
    total: nat,
    votes: Map<char, nat>,
    hierarchy: Seq<Seq<Seq<char>>>,
)
    requires
        !has_empty_group(hierarchy),
    ensures
        fits(apportioned(total, tallied(votes, hierarchy)), hierarchy),
{
    let tally = tallied(votes, hierarchy);
    let seats = apportioned(total, tally);
    lemma_apportion_len(tally.megas, total);
    assert forall|i: int| 0 <= i < hierarchy.len() implies (#[trigger] seats.coalitions[i]).len()
        == hierarchy[i].len() && seats.parties[i].len() == hierarchy[i].len() by {
        assert(hierarchy[i].len() > 0);
        lemma_apportion_len(tally.coalitions[i], seats.megas[i]);
    }
    assert forall|i: int, j: int|
        0 <= i < hierarchy.len() && 0 <= j < hierarchy[i].len() implies (
    #[trigger] seats.parties[i][j]).len() == hierarchy[i][j].len() by {
        assert(hierarchy[i][j].len() > 0);
        lemma_apportion_len(tally.parties[i][j], seats.coalitions[i][j]);
    }
}

/// Computes the seats of every mega-coalition, coalition and party.
///
/// The seats are apportioned among the mega-coalitions by their votes, the
/// seats of each mega-coalition among its coalitions, and the seats of each
/// coalition among its parties. Each count is recorded under the identifier of
/// its holder; a group with a single member shares its identifier with that
/// member, and their counts are then the same.
///
/// Nothing is computed unless votes and hierarchy fit each other, and the first
/// fault is reported, in the order of [`tally_votes`]. A hierarchy that names a
/// party at more than one place can give one identifier two different counts:
/// the first such identifier is reported with both. Where no party is named
/// twice this never happens.
pub fn calculate_seats(
    total_seats: u64,
    votes: &VoteTable,
    coalitions: &Vec<Vec<String>>,
) -> (outcome: Result<SeatDistribution, AllocationError>)
    ensures
        match outcome {
            Ok(distribution) => {
                &&& admissible(votes@, coalitions.deep_view())
                &&& allocation(total_seats as nat, votes@, coalitions.deep_view()) == Ok::<
                    Map<Seq<char>, nat>,
                    Conflict,
                >(distribution@)
                &&& conserves(distribution@, coalitions.deep_view(), total_seats as nat)
                &&& forall|party: char| #[trigger]
                    votes@.contains_key(party) <==> distribution@.contains_key(party_id(party))
                &&& forall|id: Seq<char>| #[trigger]
                    distribution@.contains_key(id) <==> is_entity(coalitions.deep_view(), id)
            },
            Err(AllocationError::EmptyGroup) => has_empty_group(coalitions.deep_view()),
            Err(AllocationError::MissingVotes(party)) => {
                &&& !has_empty_group(coalitions.deep_view())
                &&& first_without_votes(votes@, parties(coalitions.deep_view()), party)
            },
            Err(AllocationError::UnlistedParty) => {
                &&& !has_empty_group(coalitions.deep_view())
                &&& !lacks_votes(votes@, coalitions.deep_view())
                &&& has_unlisted(votes@, coalitions.deep_view())
            },
            Err(AllocationError::TooManyVotes) => {
                &&& !has_empty_group(coalitions.deep_view())
                &&& !lacks_votes(votes@, coalitions.deep_view())
                &&& !has_unlisted(votes@, coalitions.deep_view())
                &&& overflows(votes@, coalitions.deep_view())
            },
            Err(AllocationError::Mismatch { id, before, after }) => {
                &&& admissible(votes@, coalitions.deep_view())
                &&& allocation(total_seats as nat, votes@, coalitions.deep_view()) == Err::<
                    Map<Seq<char>, nat>,
                    Conflict,
                >(Conflict { id: id@, before: before as nat, after: after as nat })
                &&& !parties(coalitions.deep_view()).no_duplicates()
            },
        },
{
    let ghost hierarchy = coalitions.deep_view();
    let tally = match tally_votes(votes, coalitions) {
        Ok(tally) => tally,
        Err(fault) => {
            return Err(fault);
        },
    };
    let seats = apportion_levels(total_seats, &tally);
    proof {
        lemma_apportioned_fits(total_seats as nat, votes@, hierarchy);
    }
    let mut entries = mega_entries(coalitions, &seats);
    let mut of_coalitions = coalition_entries(coalitions, &seats);
    let mut of_parties = party_entries(coalitions, &seats);
    entries.append(&mut of_coalitions);
    entries.append(&mut of_parties);
    proof {
        assert(record_views(entries@) =~= labelled(hierarchy, seats@));
        if allocation(total_seats as nat, votes@, hierarchy) is Ok {
            lemma_hierarchical_conservation(total_seats as nat, votes@, hierarchy);
            lemma_identifier_integrity(total_seats as nat, votes@, hierarchy);
        }
        if parties(hierarchy).no_duplicates() {
            lemma_distinct_parties_allocate(total_seats as nat, votes@, hierarchy);
        }
    }
    merge(&entries)
}

} // verus!

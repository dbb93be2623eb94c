//! The ways in which an allocation fails.

use vstd::prelude::*;

verus! {

/// Why no seat distribution could be computed.
#[derive(Debug, PartialEq, Eq)]
pub enum AllocationError {
    /// The hierarchy, one of its mega-coalitions or one of its coalitions has
    /// no member, so an apportionment would have no entry to give seats to.
    EmptyGroup,
    /// The hierarchy names a party for which no votes were recorded.
    MissingVotes(char),
    /// Votes were recorded for a party that the hierarchy does not name.
    UnlistedParty,
    /// The votes of a mega-coalition add up to more than a `u64` can hold.
    TooManyVotes,
    /// An identifier was computed twice, with different seat counts.
    Mismatch { id: String, before: u64, after: u64 },
}

} // verus!

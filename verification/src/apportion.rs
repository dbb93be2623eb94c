//! The apportionment engine: seats are handed out one at a time, each to the
//! entry whose next unused quotient is the largest, the first such entry
//! winning a tie.

use vstd::prelude::*;
use crate::quotient::{quotient, quotients_dhondts, Quotients};
use crate::laws::{lemma_leader_unique, lemma_single_entry_takes_all, lemma_seat_conservation};

verus! {

/// A list of machine integers read as natural numbers.
pub open spec fn as_nats(s: Seq<u64>) -> Seq<nat> {
    Seq::new(s.len(), |i: int| s[i] as nat)
}

/// The sum of a list of natural numbers.
pub open spec fn total_of(s: Seq<nat>) -> nat
    decreases s.len(),
{
    if s.len() == 0 {
        0
    } else {
        total_of(s.drop_last()) + s.last()
    }
}

/// The allocation in which nobody holds a seat.
pub open spec fn no_seats(entries: nat) -> Seq<nat> {
    Seq::new(entries, |i: int| 0nat)
}

/// The quotient with which entry `i` competes for its next seat, given the seats
/// `held` so far.
pub open spec fn claim(votes: Seq<nat>, held: Seq<nat>, i: int) -> nat {
    quotient(votes[i], held[i] + 1)
}

/// Entry `w` is the first entry, in input order, whose claim is the largest.
pub open spec fn is_leader(votes: Seq<nat>, held: Seq<nat>, w: int) -> bool {
    &&& 0 <= w < votes.len()
    &&& forall|j: int| 0 <= j < w ==> claim(votes, held, j) < claim(votes, held, w)
    &&& forall|j: int| w < j < votes.len() ==> claim(votes, held, j) <= claim(votes, held, w)
}

/// The entry that receives the next seat.
pub open spec fn leader(votes: Seq<nat>, held: Seq<nat>) -> int {
    choose|w: int| is_leader(votes, held, w)
}

/// The allocation after one more seat has gone to the leader.
pub open spec fn award(votes: Seq<nat>, held: Seq<nat>) -> Seq<nat> {
    let w = leader(votes, held);
    held.update(w, held[w] + 1)
}

/// The D'Hondt allocation of `total` seats to the entries of `votes`, in input
/// order.
pub open spec fn apportion(votes: Seq<nat>, total: nat) -> Seq<nat>
    decreases total,
{
    if total == 0 {
        no_seats(votes.len())
    } else {
        award(votes, apportion(votes, (total - 1) as nat))
    }
}

/// Distributes `total_seats` seats over the entries of `votes` by the D'Hondt
/// method and returns the seats of each entry, in input order.
///
/// A single entry receives every seat without any quotient being drawn. With
/// several entries, a tie between equal quotients goes to the entry that comes
/// first in `votes`.
pub fn seats(total_seats: u64, votes: &[u64]) -> (result: Vec<u64>)
    requires
        votes@.len() > 0,
    ensures
        result@.len() == votes@.len(),
        as_nats(result@) == apportion(as_nats(votes@), total_seats as nat),
        total_of(as_nats(result@)) == total_seats,
{
    let n = votes.len();
    let ghost ballots = as_nats(votes@);
    proof {
        lemma_seat_conservation(ballots, total_seats as nat);
    }
    if n == 1 {
        let result = vec![total_seats];
        proof {
            lemma_single_entry_takes_all(ballots, total_seats as nat);
            assert(as_nats(result@) =~= seq![total_seats as nat]);
        }
        return result;
    }
    let mut quotient_makers: Vec<Quotients> = Vec::new();
    let mut quotients: Vec<u64> = Vec::new();
    let mut seats: Vec<u64> = Vec::new();
    let mut i: usize = 0;
    while i < n
        invariant
            n == votes@.len(),
            i <= n,
            quotient_makers@.len() == i,
            quotients@.len() == i,
            seats@.len() == i,
            forall|k: int| 0 <= k < i ==> seats@[k] == 0,
            forall|k: int| 0 <= k < i ==> quotients@[k] == quotient(votes@[k] as nat, 1),
            forall|k: int|
                0 <= k < i ==> (#[trigger] quotient_makers@[k]).votes() == votes@[k]
                    && quotient_makers@[k].drawn() == 1,
        decreases n - i,
    {
        let mut maker = quotients_dhondts(votes[i]);
        let first = maker.next();
        quotient_makers.push(maker);
        quotients.push(first);
        seats.push(0);
        i += 1;
    }
    assert(as_nats(seats@) =~= no_seats(ballots.len()));
    let mut awarded: u64 = 0;
    while awarded < total_seats
        invariant
            n == votes@.len(),
            n > 0,
            ballots == as_nats(votes@),
            awarded <= total_seats,
            quotient_makers@.len() == n,
            quotients@.len() == n,
            seats@.len() == n,
            as_nats(seats@) == apportion(ballots, awarded as nat),
            forall|k: int| 0 <= k < n ==> seats@[k] <= awarded,
            forall|k: int| 0 <= k < n ==> quotients@[k] == claim(ballots, as_nats(seats@), k),
            forall|k: int|
                0 <= k < n ==> (#[trigger] quotient_makers@[k]).votes() == votes@[k]
                    && quotient_makers@[k].drawn() == seats@[k] + 1,
        decreases total_seats - awarded,
    {
        let ghost held = as_nats(seats@);
        let mut winner: usize = 0;
        let mut j: usize = 1;
        while j < n
            invariant
                n == votes@.len(),
                quotients@.len() == n,
                1 <= j <= n,
                winner < j,
                forall|k: int| 0 <= k < n ==> quotients@[k] == claim(ballots, held, k),
                forall|k: int| 0 <= k < winner ==> claim(ballots, held, k) < claim(ballots, held, winner as int),
                forall|k: int| winner < k < j ==> claim(ballots, held, k) <= claim(ballots, held, winner as int),
            decreases n - j,
        {
            if quotients[j] > quotients[winner] {
                winner = j;
            }
            j += 1;
        }
        proof {
            assert(is_leader(ballots, held, winner as int));
            lemma_leader_unique(ballots, held, winner as int, leader(ballots, held));
        }
        let won: u64 = seats[winner] + 1;
        seats.set(winner, won);
        let mut maker = quotient_makers[winner];
        let next = maker.next();
        quotient_makers.set(winner, maker);
        quotients.set(winner, next);
        awarded += 1;
        proof {
            assert(as_nats(seats@) =~= award(ballots, held));
            assert forall|k: int| 0 <= k < n implies quotients@[k] == claim(
                ballots,
                as_nats(seats@),
                k,
            ) by {
                if k != winner {
                    assert(quotients@[k] == claim(ballots, held, k));
                }
            }
        }
    }
    seats
}

} // verus!

//! What holds of every D'Hondt allocation.

use vstd::prelude::*;
use crate::quotient::{quotient, lemma_quotient_antitone, lemma_quotient_monotone};
use crate::apportion::{apportion, award, claim, is_leader, leader, no_seats, total_of};

verus! {

/// Among the first `n` entries there is one whose claim is the largest and
/// comes first.
proof fn lemma_prefix_leader(votes: Seq<nat>, held: Seq<nat>, n: int) -> (w: int)
    requires
        1 <= n <= votes.len(),
    ensures
        0 <= w < n,
        forall|j: int| 0 <= j < w ==> claim(votes, held, j) < claim(votes, held, w),
        forall|j: int| w < j < n ==> claim(votes, held, j) <= claim(votes, held, w),
    decreases n,
{
    if n == 1 {
        0
    } else {
        let w = lemma_prefix_leader(votes, held, n - 1);
        if claim(votes, held, n - 1) > claim(votes, held, w) {
            n - 1
        } else {
            w
        }
    }
}

/// Every non-empty list of entries has a leader.
pub proof fn lemma_leader_exists(votes: Seq<nat>, held: Seq<nat>)
    requires
        votes.len() > 0,
    ensures
        is_leader(votes, held, leader(votes, held)),
{
    let w = lemma_prefix_leader(votes, held, votes.len() as int);
    assert(is_leader(votes, held, w));
}

/// No two entries lead at once: the next seat goes to one entry only.
pub proof fn lemma_leader_unique(votes: Seq<nat>, held: Seq<nat>, first: int, second: int)
    requires
        is_leader(votes, held, first),
        votes.len() > 0,
    ensures
        is_leader(votes, held, second) ==> first == second,
        first == leader(votes, held),
{
    lemma_leader_exists(votes, held);
    let w = leader(votes, held);
    if first < w {
        assert(claim(votes, held, first) < claim(votes, held, w));
    } else if w < first {
        assert(claim(votes, held, w) < claim(votes, held, first));
    }
    if is_leader(votes, held, second) {
        if second < w {
            assert(claim(votes, held, second) < claim(votes, held, w));
        } else if w < second {
            assert(claim(votes, held, w) < claim(votes, held, second));
        }
    }
}

/// An allocation has one number per entry.
pub proof fn lemma_apportion_len(votes: Seq<nat>, total: nat)
    requires
        votes.len() > 0,
    ensures
        apportion(votes, total).len() == votes.len(),
    decreases total,
{
    if total > 0 {
        let held = apportion(votes, (total - 1) as nat);
        lemma_apportion_len(votes, (total - 1) as nat);
        lemma_leader_exists(votes, held);
    }
}

/// Nobody holding a seat, the seats sum to zero.
pub proof fn lemma_total_of_no_seats(entries: nat)
    ensures
        total_of(no_seats(entries)) == 0,
    decreases entries,
{
    if entries > 0 {
        lemma_total_of_no_seats((entries - 1) as nat);
        assert(no_seats(entries).drop_last() =~= no_seats((entries - 1) as nat));
    }
}

/// Changing one number of a list changes its sum by as much.
pub proof fn lemma_total_of_update(s: Seq<nat>, i: int, v: nat)
    requires
        0 <= i < s.len(),
    ensures
        total_of(s.update(i, v)) + s[i] == total_of(s) + v,
    decreases s.len(),
{
    let t = s.update(i, v);
    if i == s.len() - 1 {
        assert(t.drop_last() =~= s.drop_last());
    } else {
        lemma_total_of_update(s.drop_last(), i, v);
        assert(t.drop_last() =~= s.drop_last().update(i, v));
    }
}

/// Seat conservation: the seats of an allocation sum to the number of seats
/// that were to be distributed.
pub proof fn lemma_seat_conservation(votes: Seq<nat>, total: nat)
    requires
        votes.len() > 0,
    ensures
        apportion(votes, total).len() == votes.len(),
        total_of(apportion(votes, total)) == total,
    decreases total,
{
    lemma_apportion_len(votes, total);
    if total == 0 {
        lemma_total_of_no_seats(votes.len());
    } else {
        let held = apportion(votes, (total - 1) as nat);
        lemma_seat_conservation(votes, (total - 1) as nat);
        lemma_leader_exists(votes, held);
        let w = leader(votes, held);
        lemma_total_of_update(held, w, held[w] + 1);
    }
}

/// Single-entry rule: an entry that stands alone receives every seat, whatever
/// its votes.
pub proof fn lemma_single_entry_takes_all(votes: Seq<nat>, total: nat)
    requires
        votes.len() == 1,
    ensures
        apportion(votes, total) == seq![total],
    decreases total,
{
    if total == 0 {
        assert(apportion(votes, total) =~= seq![total]);
    } else {
        let held = apportion(votes, (total - 1) as nat);
        lemma_single_entry_takes_all(votes, (total - 1) as nat);
        lemma_leader_exists(votes, held);
        assert(apportion(votes, total) =~= seq![total]);
    }
}

/// Zero seats: with nothing to distribute every entry receives nothing.
pub proof fn lemma_zero_seats(votes: Seq<nat>)
    ensures
        apportion(votes, 0) == no_seats(votes.len()),
        forall|i: int| 0 <= i < votes.len() ==> apportion(votes, 0)[i] == 0,
{
}

/// The claim `(qi, i)` is served before the claim `(qj, j)`: the larger quotient
/// first, and of two equal quotients the one of the earlier entry.
pub open spec fn outranks(qi: nat, i: int, qj: nat, j: int) -> bool {
    qi > qj || (qi == qj && i < j)
}

/// The quotient that won entry `i` its last seat is served before the one
/// with which entry `j` waits for its next.
pub open spec fn settled(votes: Seq<nat>, held: Seq<nat>, i: int, j: int) -> bool {
    held[i] > 0 ==> outranks(quotient(votes[i], held[i]), i, claim(votes, held, j), j)
}

/// No seat would change hands: every seat that was handed out went to a
/// quotient that is served before every quotient still waiting.
pub open spec fn is_stable(votes: Seq<nat>, held: Seq<nat>) -> bool {
    forall|i: int, j: int|
        0 <= i < votes.len() && 0 <= j < votes.len() && i != j ==> #[trigger] settled(
            votes,
            held,
            i,
            j,
        )
}

/// `held` distributes `total` seats over the entries of `votes` so that the
/// seats went to the `total` quotients that are served first.
pub open spec fn is_highest_averages(votes: Seq<nat>, total: nat, held: Seq<nat>) -> bool {
    &&& held.len() == votes.len()
    &&& total_of(held) == total
    &&& is_stable(votes, held)
}

/// Handing the next seat to the leader keeps an allocation stable.
pub proof fn lemma_award_keeps_stable(votes: Seq<nat>, held: Seq<nat>)
    requires
        votes.len() > 0,
        held.len() == votes.len(),
        is_stable(votes, held),
    ensures
        is_stable(votes, award(votes, held)),
{
    lemma_leader_exists(votes, held);
    let w = leader(votes, held);
    let next = award(votes, held);
    assert forall|i: int, j: int|
        0 <= i < votes.len() && 0 <= j < votes.len() && i != j implies #[trigger] settled(
        votes,
        next,
        i,
        j,
    ) by {
        if i == w {
            assert(claim(votes, next, j) == claim(votes, held, j));
        } else if j == w {
            assert(settled(votes, held, i, j));
            lemma_quotient_antitone(votes[w], held[w] + 1, held[w] + 2);
        } else {
            assert(settled(votes, held, i, j));
        }
    }
}

/// Every D'Hondt allocation is stable.
pub proof fn lemma_apportion_stable(votes: Seq<nat>, total: nat)
    requires
        votes.len() > 0,
    ensures
        is_highest_averages(votes, total, apportion(votes, total)),
    decreases total,
{
    lemma_seat_conservation(votes, total);
    if total > 0 {
        lemma_apportion_stable(votes, (total - 1) as nat);
        lemma_seat_conservation(votes, (total - 1) as nat);
        lemma_award_keeps_stable(votes, apportion(votes, (total - 1) as nat));
    }
}

/// A list that is nowhere larger than another has no larger sum, and the same
/// sum only if the two are equal.
pub proof fn lemma_total_of_dominated(small: Seq<nat>, large: Seq<nat>)
    requires
        small.len() == large.len(),
        forall|i: int| 0 <= i < small.len() ==> small[i] <= large[i],
    ensures
        total_of(small) <= total_of(large),
        total_of(small) == total_of(large) ==> small == large,
    decreases small.len(),
{
    if small.len() > 0 {
        lemma_total_of_dominated(small.drop_last(), large.drop_last());
        if total_of(small) == total_of(large) {
            assert(small =~= small.drop_last().push(small.last()));
            assert(large =~= large.drop_last().push(large.last()));
        }
    } else {
        assert(small =~= large);
    }
}

/// Of two stable allocations of equally many seats, the second made after one
/// entry's votes were raised, the second gives that entry no fewer seats.
pub proof fn lemma_stable_allocations_ordered(
    votes: Seq<nat>,
    raised: Seq<nat>,
    entry: int,
    before: Seq<nat>,
    after: Seq<nat>,
)
    requires
        raised.len() == votes.len(),
        0 <= entry < votes.len(),
        votes[entry] <= raised[entry],
        forall|i: int| 0 <= i < votes.len() && i != entry ==> raised[i] == votes[i],
        before.len() == votes.len(),
        after.len() == votes.len(),
        total_of(before) == total_of(after),
        is_stable(votes, before),
        is_stable(raised, after),
    ensures
        before[entry] <= after[entry],
{
    if before[entry] > after[entry] {
        if forall|i: int| 0 <= i < votes.len() && i != entry ==> after[i] <= before[i] {
            lemma_total_of_dominated(after, before);
            assert(false);
        }
        let other = choose|i: int| 0 <= i < votes.len() && i != entry && !(after[i] <= before[i]);
        assert(settled(votes, before, entry, other));
        assert(settled(raised, after, other, entry));
        lemma_quotient_antitone(votes[other], before[other] + 1, after[other]);
        lemma_quotient_antitone(votes[entry], after[entry] + 1, before[entry]);
        lemma_quotient_monotone(votes[entry], raised[entry], after[entry] + 1);
        assert(false);
    }
}

/// Monotonicity: raising the votes of one entry, the others and the number of
/// seats unchanged, never costs that entry a seat.
pub proof fn lemma_more_votes_never_fewer_seats(
    votes: Seq<nat>,
    raised: Seq<nat>,
    entry: int,
    total: nat,
)
    requires
        raised.len() == votes.len(),
        0 <= entry < votes.len(),
        votes[entry] <= raised[entry],
        forall|i: int| 0 <= i < votes.len() && i != entry ==> raised[i] == votes[i],
    ensures
        apportion(votes, total)[entry] <= apportion(raised, total)[entry],
{
    lemma_apportion_stable(votes, total);
    lemma_apportion_stable(raised, total);
    lemma_stable_allocations_ordered(
        votes,
        raised,
        entry,
        apportion(votes, total),
        apportion(raised, total),
    );
}

/// The D'Hondt allocation is the only stable allocation of `total` seats: the
/// order in which equal quotients are served leaves nothing open.
pub proof fn lemma_highest_averages_unique(votes: Seq<nat>, total: nat, held: Seq<nat>)
    requires
        votes.len() > 0,
    ensures
        is_highest_averages(votes, total, held) <==> held == apportion(votes, total),
{
    lemma_apportion_stable(votes, total);
    let seats = apportion(votes, total);
    if is_highest_averages(votes, total, held) {
        assert forall|i: int| 0 <= i < votes.len() implies held[i] == seats[i] by {
            lemma_stable_allocations_ordered(votes, votes, i, held, seats);
            lemma_stable_allocations_ordered(votes, votes, i, seats, held);
        }
        assert(held =~= seats);
    }
}

/// Of two entries, the earlier one with no fewer votes than the later one holds
/// no fewer seats: a tie between equal votes never favours the later entry.
pub proof fn lemma_earlier_entry_wins_ties(votes: Seq<nat>, total: nat, earlier: int, later: int)
    requires
        0 <= earlier < later < votes.len(),
        votes[later] <= votes[earlier],
    ensures
        apportion(votes, total)[later] <= apportion(votes, total)[earlier],
{
    lemma_apportion_stable(votes, total);
    let held = apportion(votes, total);
    if held[later] > held[earlier] {
        assert(settled(votes, held, later, earlier));
        lemma_quotient_antitone(votes[earlier], held[earlier] + 1, held[later]);
        lemma_quotient_monotone(votes[later], votes[earlier], held[later]);
        assert(false);
    }
}

} // verus!

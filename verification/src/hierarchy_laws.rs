//! What holds of every allocation over a hierarchy.

use vstd::prelude::*;
use crate::allocate::allocation;
use crate::apportion::total_of;
use crate::hierarchy::{
    concat_all, has_empty_group, is_entity, lemma_concat_all_holds, lemma_concat_all_prefix,
    lemma_concat_all_step, lemma_parties_hold, lemma_parties_origin, mega_id, mega_ids, parties,
    party_id, position_in,
};
use crate::laws::{lemma_seat_conservation, lemma_single_entry_takes_all};
use crate::levels::{admissible, apportioned, tallied};
use crate::records::{
    is_record_of, labelled, lemma_labelled_holds_coalition, lemma_labelled_holds_mega,
    lemma_labelled_holds_party, lemma_labelled_origin, lemma_merged_holds, lemma_merged_iff_agree,
};

verus! {

/// The seats that a distribution holds for the coalitions of a mega-coalition,
/// in order.
pub open spec fn coalition_shares(held: Map<Seq<char>, nat>, mega: Seq<Seq<char>>) -> Seq<nat> {
    Seq::new(mega.len(), |j: int| held[mega[j]])
}

/// The seats that a distribution holds for the parties of a coalition, in
/// order.
pub open spec fn party_shares(held: Map<Seq<char>, nat>, coalition: Seq<char>) -> Seq<nat> {
    Seq::new(coalition.len(), |k: int| held[party_id(coalition[k])])
}

/// The seats that a distribution holds for the mega-coalitions, in order.
pub open spec fn mega_shares(held: Map<Seq<char>, nat>, hierarchy: Seq<Seq<Seq<char>>>) -> Seq<nat> {
    Seq::new(hierarchy.len(), |i: int| held[mega_id(hierarchy[i])])
}

/// The seats of the mega-coalitions sum to `total`, the seats of the coalitions
/// of each mega-coalition to the seats of that mega-coalition, and the seats of
/// the parties of each coalition to the seats of that coalition.
pub open spec fn conserves(
    held: Map<Seq<char>, nat>,
    hierarchy: Seq<Seq<Seq<char>>>,
    total: nat,
) -> bool {
    &&& total_of(mega_shares(held, hierarchy)) == total
    &&& forall|i: int|
        0 <= i < hierarchy.len() ==> total_of(coalition_shares(held, #[trigger] hierarchy[i]))
            == held[mega_id(hierarchy[i])]
    &&& forall|i: int, j: int|
        0 <= i < hierarchy.len() && 0 <= j < hierarchy[i].len() ==> total_of(
            party_shares(held, #[trigger] hierarchy[i][j]),
        ) == held[hierarchy[i][j]]
}

/// A distribution holds, under the identifier of every mega-coalition,
/// coalition and party, the seats that were apportioned to it, and it holds no
/// other identifier.
pub proof fn lemma_allocation_entries(
    total: nat,
    votes: Map<char, nat>,
    hierarchy: Seq<Seq<Seq<char>>>,
)
    requires
        allocation(total, votes, hierarchy) is Ok,
    ensures
        forall|i: int|
            0 <= i < hierarchy.len() ==> {
                let held = allocation(total, votes, hierarchy)->Ok_0;
                let id = mega_id(#[trigger] hierarchy[i]);
                held.contains_key(id) && held[id] == apportioned(
                    total,
                    tallied(votes, hierarchy),
                ).megas[i]
            },
        forall|i: int, j: int|
            0 <= i < hierarchy.len() && 0 <= j < hierarchy[i].len() ==> {
                let held = allocation(total, votes, hierarchy)->Ok_0;
                let id = #[trigger] hierarchy[i][j];
                held.contains_key(id) && held[id] == apportioned(
                    total,
                    tallied(votes, hierarchy),
                ).coalitions[i][j]
            },
        forall|i: int, j: int, k: int|
            0 <= i < hierarchy.len() && 0 <= j < hierarchy[i].len() && 0 <= k
                < hierarchy[i][j].len() ==> {
                let held = allocation(total, votes, hierarchy)->Ok_0;
                let id = party_id(#[trigger] hierarchy[i][j][k]);
                held.contains_key(id) && held[id] == apportioned(
                    total,
                    tallied(votes, hierarchy),
                ).parties[i][j][k]
            },
        forall|id: Seq<char>| #[trigger]
            allocation(total, votes, hierarchy)->Ok_0.contains_key(id) <==> is_entity(
                hierarchy,
                id,
            ),
{
    let seats = apportioned(total, tallied(votes, hierarchy));
    let records = labelled(hierarchy, seats);
    let held = allocation(total, votes, hierarchy)->Ok_0;
    lemma_merged_holds(records);
    assert forall|i: int| 0 <= i < hierarchy.len() implies held.contains_key(
        mega_id(#[trigger] hierarchy[i]),
    ) && held[mega_id(hierarchy[i])] == seats.megas[i] by {
        let n = lemma_labelled_holds_mega(hierarchy, seats, i);
        assert(held.contains_key(records[n].0));
    }
    assert forall|i: int, j: int|
        0 <= i < hierarchy.len() && 0 <= j < hierarchy[i].len() implies held.contains_key(
        #[trigger] hierarchy[i][j],
    ) && held[hierarchy[i][j]] == seats.coalitions[i][j] by {
        let n = lemma_labelled_holds_coalition(hierarchy, seats, i, j);
        assert(held.contains_key(records[n].0));
    }
    assert forall|i: int, j: int, k: int|
        0 <= i < hierarchy.len() && 0 <= j < hierarchy[i].len() && 0 <= k
            < hierarchy[i][j].len() implies held.contains_key(
        party_id(#[trigger] hierarchy[i][j][k]),
    ) && held[party_id(hierarchy[i][j][k])] == seats.parties[i][j][k] by {
        let n = lemma_labelled_holds_party(hierarchy, seats, i, j, k);
        assert(held.contains_key(records[n].0));
    }
    assert forall|id: Seq<char>| #[trigger] held.contains_key(id) implies is_entity(
        hierarchy,
        id,
    ) by {
        let n = choose|n: int| 0 <= n < records.len() && (#[trigger] records[n]).0 == id;
        lemma_labelled_origin(hierarchy, seats, n);
    }
}

/// Hierarchical conservation: in every distribution the seats of the
/// mega-coalitions sum to the seats distributed, the seats of the coalitions of
/// a mega-coalition to its seats, and the seats of the parties of a coalition to
/// its seats.
pub proof fn lemma_hierarchical_conservation(
    total: nat,
    votes: Map<char, nat>,
    hierarchy: Seq<Seq<Seq<char>>>,
)
    requires
        !has_empty_group(hierarchy),
        allocation(total, votes, hierarchy) is Ok,
    ensures
        conserves(allocation(total, votes, hierarchy)->Ok_0, hierarchy, total),
{
    let tally = tallied(votes, hierarchy);
    let seats = apportioned(total, tally);
    let held = allocation(total, votes, hierarchy)->Ok_0;
    lemma_allocation_entries(total, votes, hierarchy);
    lemma_seat_conservation(tally.megas, total);
    assert(mega_shares(held, hierarchy) =~= seats.megas) by {
        assert forall|i: int| 0 <= i < hierarchy.len() implies held[mega_id(hierarchy[i])]
            == seats.megas[i] by {
            assert(held.contains_key(mega_id(hierarchy[i])));
        }
    }
    assert forall|i: int| 0 <= i < hierarchy.len() implies total_of(
        coalition_shares(held, #[trigger] hierarchy[i]),
    ) == held[mega_id(hierarchy[i])] by {
        assert(hierarchy[i].len() > 0);
        lemma_seat_conservation(tally.coalitions[i], seats.megas[i]);
        assert forall|j: int| 0 <= j < hierarchy[i].len() implies held[hierarchy[i][j]]
            == seats.coalitions[i][j] by {
            assert(held.contains_key(hierarchy[i][j]));
        }
        assert(coalition_shares(held, hierarchy[i]) =~= seats.coalitions[i]);
    }
    assert forall|i: int, j: int|
        0 <= i < hierarchy.len() && 0 <= j < hierarchy[i].len() implies total_of(
        party_shares(held, #[trigger] hierarchy[i][j]),
    ) == held[hierarchy[i][j]] by {
        assert(hierarchy[i][j].len() > 0);
        lemma_seat_conservation(tally.parties[i][j], seats.coalitions[i][j]);
        assert forall|k: int| 0 <= k < hierarchy[i][j].len() implies held[party_id(
            hierarchy[i][j][k],
        )] == seats.parties[i][j][k] by {
            assert(held.contains_key(party_id(hierarchy[i][j][k])));
        }
        assert(party_shares(held, hierarchy[i][j]) =~= seats.parties[i][j]);
    }
}

/// Identifier integrity: a distribution holds the label of a party exactly if
/// votes were recorded for the party, and every identifier that it holds names
/// a mega-coalition, a coalition or a party of the hierarchy.
pub proof fn lemma_identifier_integrity(
    total: nat,
    votes: Map<char, nat>,
    hierarchy: Seq<Seq<Seq<char>>>,
)
    requires
        admissible(votes, hierarchy),
        allocation(total, votes, hierarchy) is Ok,
    ensures
        forall|party: char| #[trigger]
            votes.contains_key(party) <==> allocation(total, votes, hierarchy)->Ok_0.contains_key(
                party_id(party),
            ),
        forall|id: Seq<char>| #[trigger]
            allocation(total, votes, hierarchy)->Ok_0.contains_key(id) <==> is_entity(
                hierarchy,
                id,
            ),
{
    let held = allocation(total, votes, hierarchy)->Ok_0;
    let all = parties(hierarchy);
    lemma_allocation_entries(total, votes, hierarchy);
    assert forall|party: char| #[trigger] votes.contains_key(party) implies held.contains_key(
        party_id(party),
    ) by {
        assert(all.contains(party));
        let n = choose|n: int| 0 <= n < all.len() && all[n] == party;
        let (i, j, k) = lemma_parties_origin(hierarchy, n);
        assert(held.contains_key(party_id(hierarchy[i][j][k])));
    }
    assert forall|party: char| held.contains_key(party_id(party)) implies #[trigger]
        votes.contains_key(party) by {
        let id = party_id(party);
        assert(is_entity(hierarchy, id));
        lemma_sole_party_is_listed(hierarchy, party);
        let n = choose|n: int| 0 <= n < all.len() && all[n] == party;
        assert(votes.contains_key(all[n]));
    }
}

/// A mega-coalition, coalition or party whose identifier is one label is, or
/// consists of, the party of that label.
pub proof fn lemma_sole_party_is_listed(hierarchy: Seq<Seq<Seq<char>>>, party: char)
    requires
        is_entity(hierarchy, party_id(party)),
    ensures
        parties(hierarchy).contains(party),
{
    let id = party_id(party);
    let all = parties(hierarchy);
    if exists|i: int| 0 <= i < hierarchy.len() && id == mega_id(#[trigger] hierarchy[i]) {
        let i = choose|i: int| 0 <= i < hierarchy.len() && id == mega_id(#[trigger] hierarchy[i]);
        assert(mega_ids(hierarchy)[i] == id);
        lemma_concat_all_holds(mega_ids(hierarchy), i, 0);
        assert(id[0] == party);
    } else if exists|i: int, j: int|
        0 <= i < hierarchy.len() && 0 <= j < hierarchy[i].len() && id == #[trigger] hierarchy[i][j] {
        let (i, j) = choose|i: int, j: int|
            0 <= i < hierarchy.len() && 0 <= j < hierarchy[i].len() && id
                == #[trigger] hierarchy[i][j];
        assert(id[0] == party);
        lemma_parties_hold(hierarchy, i, j, 0);
    } else {
        let (i, j, k) = choose|i: int, j: int, k: int|
            0 <= i < hierarchy.len() && 0 <= j < hierarchy[i].len() && 0 <= k
                < hierarchy[i][j].len() && id == party_id(#[trigger] hierarchy[i][j][k]);
        assert(id[0] == party);
        assert(party_id(hierarchy[i][j][k])[0] == hierarchy[i][j][k]);
        lemma_parties_hold(hierarchy, i, j, k);
    }
}

/// The place of a party in the reading order of the hierarchy.
pub proof fn lemma_place_of_party(hierarchy: Seq<Seq<Seq<char>>>, i: int, j: int, k: int) -> (n:
    int)
    requires
        0 <= i < hierarchy.len(),
        0 <= j < hierarchy[i].len(),
        0 <= k < hierarchy[i][j].len(),
    ensures
        0 <= n < parties(hierarchy).len(),
        parties(hierarchy)[n] == hierarchy[i][j][k],
        n == position_in(mega_ids(hierarchy), i, position_in(hierarchy[i], j, k)),
        0 <= position_in(hierarchy[i], j, k) < mega_ids(hierarchy)[i].len(),
{
    lemma_concat_all_holds(hierarchy[i], j, k);
    let m = position_in(hierarchy[i], j, k);
    lemma_concat_all_holds(mega_ids(hierarchy), i, m);
    position_in(mega_ids(hierarchy), i, m)
}

/// Two elements of a table that stand at one position of the concatenation are
/// one element.
pub proof fn lemma_position_in_injective<A>(rows: Seq<Seq<A>>, i: int, j: int, a: int, b: int)
    requires
        0 <= i < rows.len(),
        0 <= j < rows[i].len(),
        0 <= a < rows.len(),
        0 <= b < rows[a].len(),
        position_in(rows, i, j) == position_in(rows, a, b),
    ensures
        i == a,
        j == b,
{
    if i < a {
        lemma_concat_all_prefix(rows, i, a);
    } else if a < i {
        lemma_concat_all_prefix(rows, a, i);
    }
}

/// Where no party is named twice, a label stands at one place only.
pub proof fn lemma_same_party_same_place(
    hierarchy: Seq<Seq<Seq<char>>>,
    i: int,
    j: int,
    k: int,
    a: int,
    b: int,
    c: int,
)
    requires
        parties(hierarchy).no_duplicates(),
        0 <= i < hierarchy.len(),
        0 <= j < hierarchy[i].len(),
        0 <= k < hierarchy[i][j].len(),
        0 <= a < hierarchy.len(),
        0 <= b < hierarchy[a].len(),
        0 <= c < hierarchy[a][b].len(),
        hierarchy[i][j][k] == hierarchy[a][b][c],
    ensures
        i == a,
        j == b,
        k == c,
{
    let n = lemma_place_of_party(hierarchy, i, j, k);
    let m = lemma_place_of_party(hierarchy, a, b, c);
    assert(n == m);
    lemma_position_in_injective(
        mega_ids(hierarchy),
        i,
        position_in(hierarchy[i], j, k),
        a,
        position_in(hierarchy[a], b, c),
    );
    lemma_position_in_injective(hierarchy[i], j, k, b, c);
}

/// The identifier of a mega-coalition begins with its first coalition, is that
/// coalition if there is no other, and is longer if there is.
pub proof fn lemma_mega_id_shape(mega: Seq<Seq<char>>)
    requires
        mega.len() > 0,
        forall|j: int| 0 <= j < mega.len() ==> (#[trigger] mega[j]).len() > 0,
    ensures
        mega_id(mega).len() >= mega[0].len(),
        mega_id(mega)[0] == mega[0][0],
        mega.len() == 1 ==> mega_id(mega) == mega[0],
        mega.len() >= 2 ==> mega_id(mega).len() > mega[0].len(),
{
    assert(mega.take(0) =~= Seq::<Seq<char>>::empty());
    lemma_concat_all_step(mega, 0);
    assert(concat_all(mega.take(1)) =~= mega[0]);
    assert(mega[0].len() > 0);
    lemma_concat_all_holds(mega, 0, 0);
    lemma_concat_all_prefix(mega, 1, mega.len() as int);
    assert(mega.take(mega.len() as int) =~= mega);
    if mega.len() >= 2 {
        assert(mega[1].len() > 0);
    }
}

/// Two mega-coalitions with one identifier are one mega-coalition.
proof fn lemma_mega_meets_mega(hierarchy: Seq<Seq<Seq<char>>>, i: int, a: int)
    requires
        !has_empty_group(hierarchy),
        parties(hierarchy).no_duplicates(),
        0 <= i < hierarchy.len(),
        0 <= a < hierarchy.len(),
        mega_id(hierarchy[i]) == mega_id(hierarchy[a]),
    ensures
        i == a,
{
    lemma_groups_inhabited(hierarchy);
    lemma_mega_id_shape(hierarchy[i]);
    lemma_mega_id_shape(hierarchy[a]);
    lemma_same_party_same_place(hierarchy, i, 0, 0, a, 0, 0);
}

/// In a hierarchy without empty groups every mega-coalition has a coalition
/// and every coalition has a party.
pub proof fn lemma_groups_inhabited(hierarchy: Seq<Seq<Seq<char>>>)
    requires
        !has_empty_group(hierarchy),
    ensures
        hierarchy.len() > 0,
        forall|i: int| 0 <= i < hierarchy.len() ==> (#[trigger] hierarchy[i]).len() > 0,
        forall|i: int, j: int|
            0 <= i < hierarchy.len() && 0 <= j < hierarchy[i].len() ==> (
            #[trigger] hierarchy[i][j]).len() > 0,
{
}

/// A coalition that bears the identifier of a mega-coalition is its only
/// coalition, and holds all its seats.
proof fn lemma_mega_meets_coalition(
    total: nat,
    votes: Map<char, nat>,
    hierarchy: Seq<Seq<Seq<char>>>,
    i: int,
    a: int,
    b: int,
)
    requires
        !has_empty_group(hierarchy),
        parties(hierarchy).no_duplicates(),
        0 <= i < hierarchy.len(),
        0 <= a < hierarchy.len(),
        0 <= b < hierarchy[a].len(),
        mega_id(hierarchy[i]) == hierarchy[a][b],
    ensures
        i == a,
        b == 0,
        hierarchy[i].len() == 1,
        apportioned(total, tallied(votes, hierarchy)).megas[i] == apportioned(
            total,
            tallied(votes, hierarchy),
        ).coalitions[a][b],
{
    lemma_groups_inhabited(hierarchy);
    lemma_mega_id_shape(hierarchy[i]);
    assert(hierarchy[a][b].len() > 0);
    lemma_same_party_same_place(hierarchy, i, 0, 0, a, b, 0);
    let tally = tallied(votes, hierarchy);
    let seats = apportioned(total, tally);
    lemma_single_entry_takes_all(tally.coalitions[i], seats.megas[i]);
}

/// A party whose label is the identifier of a coalition is its only party, and
/// holds all its seats.
proof fn lemma_coalition_meets_party(
    total: nat,
    votes: Map<char, nat>,
    hierarchy: Seq<Seq<Seq<char>>>,
    i: int,
    j: int,
    a: int,
    b: int,
    c: int,
)
    requires
        !has_empty_group(hierarchy),
        parties(hierarchy).no_duplicates(),
        0 <= i < hierarchy.len(),
        0 <= j < hierarchy[i].len(),
        0 <= a < hierarchy.len(),
        0 <= b < hierarchy[a].len(),
        0 <= c < hierarchy[a][b].len(),
        hierarchy[i][j] == party_id(hierarchy[a][b][c]),
    ensures
        i == a,
        j == b,
        c == 0,
        apportioned(total, tallied(votes, hierarchy)).coalitions[i][j] == apportioned(
            total,
            tallied(votes, hierarchy),
        ).parties[a][b][c],
{
    assert(hierarchy[i][j][0] == hierarchy[a][b][c]);
    lemma_same_party_same_place(hierarchy, i, j, 0, a, b, c);
    let tally = tallied(votes, hierarchy);
    let seats = apportioned(total, tally);
    lemma_single_entry_takes_all(tally.parties[i][j], seats.coalitions[i][j]);
}

/// A party whose label is the identifier of a mega-coalition is its only party,
/// and holds all its seats.
proof fn lemma_mega_meets_party(
    total: nat,
    votes: Map<char, nat>,
    hierarchy: Seq<Seq<Seq<char>>>,
    i: int,
    a: int,
    b: int,
    c: int,
)
    requires
        !has_empty_group(hierarchy),
        parties(hierarchy).no_duplicates(),
        0 <= i < hierarchy.len(),
        0 <= a < hierarchy.len(),
        0 <= b < hierarchy[a].len(),
        0 <= c < hierarchy[a][b].len(),
        mega_id(hierarchy[i]) == party_id(hierarchy[a][b][c]),
    ensures
        apportioned(total, tallied(votes, hierarchy)).megas[i] == apportioned(
            total,
            tallied(votes, hierarchy),
        ).parties[a][b][c],
{
    lemma_groups_inhabited(hierarchy);
    lemma_mega_id_shape(hierarchy[i]);
    assert(hierarchy[i][0].len() > 0);
    assert(hierarchy[i][0] == party_id(hierarchy[a][b][c]));
    lemma_mega_meets_coalition(total, votes, hierarchy, i, i, 0);
    lemma_coalition_meets_party(total, votes, hierarchy, i, 0, a, b, c);
}

/// Where no party is named twice, two records under one identifier give the
/// same seats.
proof fn lemma_records_agree_pair(
    total: nat,
    votes: Map<char, nat>,
    hierarchy: Seq<Seq<Seq<char>>>,
    first: (Seq<char>, nat),
    second: (Seq<char>, nat),
)
    requires
        !has_empty_group(hierarchy),
        parties(hierarchy).no_duplicates(),
        is_record_of(hierarchy, apportioned(total, tallied(votes, hierarchy)), first),
        is_record_of(hierarchy, apportioned(total, tallied(votes, hierarchy)), second),
        first.0 == second.0,
    ensures
        first.1 == second.1,
{
    let h = hierarchy;
    let seats = apportioned(total, tallied(votes, hierarchy));
    if exists|i: int| 0 <= i < h.len() && first == (mega_id(#[trigger] h[i]), seats.megas[i]) {
        let i = choose|i: int|
            0 <= i < h.len() && first == (mega_id(#[trigger] h[i]), seats.megas[i]);
        if exists|a: int| 0 <= a < h.len() && second == (mega_id(#[trigger] h[a]), seats.megas[a]) {
            let a = choose|a: int|
                0 <= a < h.len() && second == (mega_id(#[trigger] h[a]), seats.megas[a]);
            lemma_mega_meets_mega(h, i, a);
        } else if exists|a: int, b: int|
            0 <= a < h.len() && 0 <= b < h[a].len() && second == (
                #[trigger] h[a][b],
                seats.coalitions[a][b],
            ) {
            let (a, b) = choose|a: int, b: int|
                0 <= a < h.len() && 0 <= b < h[a].len() && second == (
                    #[trigger] h[a][b],
                    seats.coalitions[a][b],
                );
            lemma_mega_meets_coalition(total, votes, h, i, a, b);
        } else {
            let (a, b, c) = choose|a: int, b: int, c: int|
                0 <= a < h.len() && 0 <= b < h[a].len() && 0 <= c < h[a][b].len() && second == (
                    party_id(#[trigger] h[a][b][c]),
                    seats.parties[a][b][c],
                );
            lemma_mega_meets_party(total, votes, h, i, a, b, c);
        }
    } else if exists|i: int, j: int|
        0 <= i < h.len() && 0 <= j < h[i].len() && first == (
            #[trigger] h[i][j],
            seats.coalitions[i][j],
        ) {
        let (i, j) = choose|i: int, j: int|
            0 <= i < h.len() && 0 <= j < h[i].len() && first == (
                #[trigger] h[i][j],
                seats.coalitions[i][j],
            );
        if exists|a: int| 0 <= a < h.len() && second == (mega_id(#[trigger] h[a]), seats.megas[a]) {
            let a = choose|a: int|
                0 <= a < h.len() && second == (mega_id(#[trigger] h[a]), seats.megas[a]);
            lemma_mega_meets_coalition(total, votes, h, a, i, j);
        } else if exists|a: int, b: int|
            0 <= a < h.len() && 0 <= b < h[a].len() && second == (
                #[trigger] h[a][b],
                seats.coalitions[a][b],
            ) {
            let (a, b) = choose|a: int, b: int|
                0 <= a < h.len() && 0 <= b < h[a].len() && second == (
                    #[trigger] h[a][b],
                    seats.coalitions[a][b],
                );
            lemma_groups_inhabited(h);
            assert(h[i][j].len() > 0);
            lemma_same_party_same_place(h, i, j, 0, a, b, 0);
        } else {
            let (a, b, c) = choose|a: int, b: int, c: int|
                0 <= a < h.len() && 0 <= b < h[a].len() && 0 <= c < h[a][b].len() && second == (
                    party_id(#[trigger] h[a][b][c]),
                    seats.parties[a][b][c],
                );
            lemma_coalition_meets_party(total, votes, h, i, j, a, b, c);
        }
    } else {
        let (i, j, k) = choose|i: int, j: int, k: int|
            0 <= i < h.len() && 0 <= j < h[i].len() && 0 <= k < h[i][j].len() && first == (
                party_id(#[trigger] h[i][j][k]),
                seats.parties[i][j][k],
            );
        if exists|a: int| 0 <= a < h.len() && second == (mega_id(#[trigger] h[a]), seats.megas[a]) {
            let a = choose|a: int|
                0 <= a < h.len() && second == (mega_id(#[trigger] h[a]), seats.megas[a]);
            lemma_mega_meets_party(total, votes, h, a, i, j, k);
        } else if exists|a: int, b: int|
            0 <= a < h.len() && 0 <= b < h[a].len() && second == (
                #[trigger] h[a][b],
                seats.coalitions[a][b],
            ) {
            let (a, b) = choose|a: int, b: int|
                0 <= a < h.len() && 0 <= b < h[a].len() && second == (
                    #[trigger] h[a][b],
                    seats.coalitions[a][b],
                );
            lemma_coalition_meets_party(total, votes, h, a, b, i, j, k);
        } else {
            let (a, b, c) = choose|a: int, b: int, c: int|
                0 <= a < h.len() && 0 <= b < h[a].len() && 0 <= c < h[a][b].len() && second == (
                    party_id(#[trigger] h[a][b][c]),
                    seats.parties[a][b][c],
                );
            assert(party_id(h[i][j][k])[0] == party_id(h[a][b][c])[0]);
            lemma_same_party_same_place(h, i, j, k, a, b, c);
        }
    }
}

/// A hierarchy that has no empty group and names no party twice always has a
/// distribution: the identifiers that a group shares with its only member get
/// the same seats at both levels.
pub proof fn lemma_distinct_parties_allocate(
    total: nat,
    votes: Map<char, nat>,
    hierarchy: Seq<Seq<Seq<char>>>,
)
    requires
        !has_empty_group(hierarchy),
        parties(hierarchy).no_duplicates(),
    ensures
        allocation(total, votes, hierarchy) is Ok,
{
    let seats = apportioned(total, tallied(votes, hierarchy));
    let records = labelled(hierarchy, seats);
    assert forall|m: int, n: int|
        0 <= m < records.len() && 0 <= n < records.len() && (#[trigger] records[m]).0 == (
        #[trigger] records[n]).0 implies records[m].1 == records[n].1 by {
        lemma_labelled_origin(hierarchy, seats, m);
        lemma_labelled_origin(hierarchy, seats, n);
        lemma_records_agree_pair(total, votes, hierarchy, records[m], records[n]);
    }
    lemma_merged_iff_agree(records);
}

/// For every hierarchy that has no empty group and names no party twice, seats
/// are conserved at every level.
pub proof fn lemma_valid_hierarchy_conserves(
    total: nat,
    votes: Map<char, nat>,
    hierarchy: Seq<Seq<Seq<char>>>,
)
    requires
        !has_empty_group(hierarchy),
        parties(hierarchy).no_duplicates(),
    ensures
        allocation(total, votes, hierarchy) is Ok,
        conserves(allocation(total, votes, hierarchy)->Ok_0, hierarchy, total),
{
    lemma_distinct_parties_allocate(total, votes, hierarchy);
    lemma_hierarchical_conservation(total, votes, hierarchy);
}

} // verus!

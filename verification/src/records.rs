//! Seat records: each level of the hierarchy written out as pairs of
//! identifier and seats, and the merge of such pairs into one distribution.

use vstd::prelude::*;
use vstd::string::*;
use crate::distribution::SeatDistribution;
use crate::error::AllocationError;
use crate::hierarchy::{
    concat_all, lemma_concat_all_holds, lemma_concat_all_origin, lemma_concat_all_step, mega_id,
    mega_name, party_id, position_in,
};
use crate::levels::{Levels, LevelsView};
use crate::text::label_of;

verus! {

/// A list of entries read as pairs of identifier and seats.
pub open spec fn record_views(entries: Seq<(String, u64)>) -> Seq<(Seq<char>, nat)> {
    Seq::new(entries.len(), |n: int| (entries[n].0@, entries[n].1 as nat))
}

/// The numbers of `levels` are laid out as the hierarchy is: one for each
/// mega-coalition, coalition and party.
pub open spec fn fits(levels: LevelsView, hierarchy: Seq<Seq<Seq<char>>>) -> bool {
    &&& levels.megas.len() == hierarchy.len()
    &&& levels.coalitions.len() == hierarchy.len()
    &&& levels.parties.len() == hierarchy.len()
    &&& forall|i: int|
        0 <= i < hierarchy.len() ==> (#[trigger] levels.coalitions[i]).len() == hierarchy[i].len()
            && levels.parties[i].len() == hierarchy[i].len()
    &&& forall|i: int, j: int|
        0 <= i < hierarchy.len() && 0 <= j < hierarchy[i].len() ==> (
        #[trigger] levels.parties[i][j]).len() == hierarchy[i][j].len()
}

/// The seats of the mega-coalitions, each under its identifier.
pub open spec fn mega_records(hierarchy: Seq<Seq<Seq<char>>>, seats: LevelsView) -> Seq<
    (Seq<char>, nat),
> {
    Seq::new(hierarchy.len(), |i: int| (mega_id(hierarchy[i]), seats.megas[i]))
}

/// The seats of the coalitions of mega-coalition `i`, each under its
/// identifier.
pub open spec fn coalition_records_in(
    hierarchy: Seq<Seq<Seq<char>>>,
    seats: LevelsView,
    i: int,
) -> Seq<(Seq<char>, nat)> {
    Seq::new(hierarchy[i].len(), |j: int| (hierarchy[i][j], seats.coalitions[i][j]))
}

/// The seats of all coalitions, mega-coalition after mega-coalition.
pub open spec fn coalition_records(hierarchy: Seq<Seq<Seq<char>>>, seats: LevelsView) -> Seq<
    (Seq<char>, nat),
> {
    concat_all(Seq::new(hierarchy.len(), |i: int| coalition_records_in(hierarchy, seats, i)))
}

/// The seats of the parties of coalition `j` of mega-coalition `i`, each under
/// its identifier.
pub open spec fn party_records_in(
    hierarchy: Seq<Seq<Seq<char>>>,
    seats: LevelsView,
    i: int,
    j: int,
) -> Seq<(Seq<char>, nat)> {
    Seq::new(
        hierarchy[i][j].len(),
        |k: int| (party_id(hierarchy[i][j][k]), seats.parties[i][j][k]),
    )
}

/// The seats of the parties of mega-coalition `i`, coalition after coalition.
pub open spec fn party_records_of(
    hierarchy: Seq<Seq<Seq<char>>>,
    seats: LevelsView,
    i: int,
) -> Seq<(Seq<char>, nat)> {
    concat_all(Seq::new(hierarchy[i].len(), |j: int| party_records_in(hierarchy, seats, i, j)))
}

/// The seats of all parties, mega-coalition after mega-coalition.
pub open spec fn party_records(hierarchy: Seq<Seq<Seq<char>>>, seats: LevelsView) -> Seq<
    (Seq<char>, nat),
> {
    concat_all(Seq::new(hierarchy.len(), |i: int| party_records_of(hierarchy, seats, i)))
}

/// Every seat count under its identifier: the mega-coalitions first, then the
/// coalitions, then the parties.
pub open spec fn labelled(hierarchy: Seq<Seq<Seq<char>>>, seats: LevelsView) -> Seq<
    (Seq<char>, nat),
> {
    mega_records(hierarchy, seats) + coalition_records(hierarchy, seats) + party_records(
        hierarchy,
        seats,
    )
}

/// Where the record of mega-coalition `i` stands among all records.
pub proof fn lemma_labelled_holds_mega(
    hierarchy: Seq<Seq<Seq<char>>>,
    seats: LevelsView,
    i: int,
) -> (n: int)
    requires
        0 <= i < hierarchy.len(),
    ensures
        0 <= n < labelled(hierarchy, seats).len(),
        labelled(hierarchy, seats)[n] == (mega_id(hierarchy[i]), seats.megas[i]),
{
    i
}

/// Where the record of coalition `j` of mega-coalition `i` stands among all
/// records.
pub proof fn lemma_labelled_holds_coalition(
    hierarchy: Seq<Seq<Seq<char>>>,
    seats: LevelsView,
    i: int,
    j: int,
) -> (n: int)
    requires
        0 <= i < hierarchy.len(),
        0 <= j < hierarchy[i].len(),
    ensures
        0 <= n < labelled(hierarchy, seats).len(),
        labelled(hierarchy, seats)[n] == (hierarchy[i][j], seats.coalitions[i][j]),
{
    let rows = Seq::new(hierarchy.len(), |i: int| coalition_records_in(hierarchy, seats, i));
    lemma_concat_all_holds(rows, i, j);
    mega_records(hierarchy, seats).len() + position_in(rows, i, j)
}

/// Where the record of party `k` of coalition `j` of mega-coalition `i` stands
/// among all records.
pub proof fn lemma_labelled_holds_party(
    hierarchy: Seq<Seq<Seq<char>>>,
    seats: LevelsView,
    i: int,
    j: int,
    k: int,
) -> (n: int)
    requires
        0 <= i < hierarchy.len(),
        0 <= j < hierarchy[i].len(),
        0 <= k < hierarchy[i][j].len(),
    ensures
        0 <= n < labelled(hierarchy, seats).len(),
        labelled(hierarchy, seats)[n] == (party_id(hierarchy[i][j][k]), seats.parties[i][j][k]),
{
    let blocks = Seq::new(hierarchy.len(), |i: int| party_records_of(hierarchy, seats, i));
    let rows = Seq::new(hierarchy[i].len(), |j: int| party_records_in(hierarchy, seats, i, j));
    lemma_concat_all_holds(rows, j, k);
    let m = position_in(rows, j, k);
    lemma_concat_all_holds(blocks, i, m);
    mega_records(hierarchy, seats).len() + coalition_records(hierarchy, seats).len() + position_in(
        blocks,
        i,
        m,
    )
}

/// `record` gives the seats of a mega-coalition, a coalition or a party of the
/// hierarchy under its identifier.
pub open spec fn is_record_of(
    hierarchy: Seq<Seq<Seq<char>>>,
    seats: LevelsView,
    record: (Seq<char>, nat),
) -> bool {
    ||| exists|i: int|
        0 <= i < hierarchy.len() && record == (mega_id(#[trigger] hierarchy[i]), seats.megas[i])
    ||| exists|i: int, j: int|
        0 <= i < hierarchy.len() && 0 <= j < hierarchy[i].len() && record == (
            #[trigger] hierarchy[i][j],
            seats.coalitions[i][j],
        )
    ||| exists|i: int, j: int, k: int|
        0 <= i < hierarchy.len() && 0 <= j < hierarchy[i].len() && 0 <= k < hierarchy[i][j].len()
            && record == (party_id(#[trigger] hierarchy[i][j][k]), seats.parties[i][j][k])
}

/// Every record belongs to a mega-coalition, a coalition or a party of the
/// hierarchy.
pub proof fn lemma_labelled_origin(hierarchy: Seq<Seq<Seq<char>>>, seats: LevelsView, n: int)
    requires
        0 <= n < labelled(hierarchy, seats).len(),
    ensures
        is_record_of(hierarchy, seats, labelled(hierarchy, seats)[n]),
{
    let record = labelled(hierarchy, seats)[n];
    let megas = mega_records(hierarchy, seats);
    let coalitions = coalition_records(hierarchy, seats);
    if n < megas.len() {
        assert(record == (mega_id(hierarchy[n]), seats.megas[n]));
    } else if n < megas.len() + coalitions.len() {
        let rows = Seq::new(hierarchy.len(), |i: int| coalition_records_in(hierarchy, seats, i));
        let (i, j) = lemma_concat_all_origin(rows, n - megas.len());
        assert(record == (hierarchy[i][j], seats.coalitions[i][j]));
    } else {
        let blocks = Seq::new(hierarchy.len(), |i: int| party_records_of(hierarchy, seats, i));
        let (i, m) = lemma_concat_all_origin(blocks, n - megas.len() - coalitions.len());
        let rows = Seq::new(hierarchy[i].len(), |j: int| party_records_in(hierarchy, seats, i, j));
        let (j, k) = lemma_concat_all_origin(rows, m);
        assert(record == (party_id(hierarchy[i][j][k]), seats.parties[i][j][k]));
    }
}

/// An identifier that was given two different seat counts.
pub ghost struct Conflict {
    pub id: Seq<char>,
    pub before: nat,
    pub after: nat,
}

/// Adds one record to what was merged so far. A record whose identifier is
/// held already must repeat the seats held for it.
pub open spec fn merge_one(
    so_far: Result<Map<Seq<char>, nat>, Conflict>,
    record: (Seq<char>, nat),
) -> Result<Map<Seq<char>, nat>, Conflict> {
    match so_far {
        Err(conflict) => Err(conflict),
        Ok(held) => if held.contains_key(record.0) && held[record.0] != record.1 {
            Err(Conflict { id: record.0, before: held[record.0], after: record.1 })
        } else {
            Ok(held.insert(record.0, record.1))
        },
    }
}

/// Adds records, in order, to what was merged so far; the first conflict ends
/// the merge.
pub open spec fn merge_all(
    start: Result<Map<Seq<char>, nat>, Conflict>,
    records: Seq<(Seq<char>, nat)>,
) -> Result<Map<Seq<char>, nat>, Conflict>
    decreases records.len(),
{
    if records.len() == 0 {
        start
    } else {
        merge_one(merge_all(start, records.drop_last()), records.last())
    }
}

/// The map that a list of records merges into, or its first conflict.
pub open spec fn merged(records: Seq<(Seq<char>, nat)>) -> Result<Map<Seq<char>, nat>, Conflict> {
    merge_all(Ok(Map::empty()), records)
}

/// Merging two lists, one after the other, is merging the second into the
/// merge of the first.
pub proof fn lemma_merge_all_concat(
    start: Result<Map<Seq<char>, nat>, Conflict>,
    first: Seq<(Seq<char>, nat)>,
    second: Seq<(Seq<char>, nat)>,
)
    ensures
        merge_all(start, first + second) == merge_all(merge_all(start, first), second),
    decreases second.len(),
{
    if second.len() == 0 {
        assert(first + second =~= first);
    } else {
        lemma_merge_all_concat(start, first, second.drop_last());
        assert((first + second).drop_last() =~= first + second.drop_last());
    }
}

/// After a conflict nothing more is merged.
pub proof fn lemma_merge_all_stops(conflict: Conflict, records: Seq<(Seq<char>, nat)>)
    ensures
        merge_all(Err(conflict), records) == Err::<Map<Seq<char>, nat>, Conflict>(conflict),
    decreases records.len(),
{
    if records.len() > 0 {
        lemma_merge_all_stops(conflict, records.drop_last());
    }
}

/// Merging the first `n + 1` records is merging record `n` into the merge of
/// the first `n`.
pub proof fn lemma_merged_step(records: Seq<(Seq<char>, nat)>, n: int)
    requires
        0 <= n < records.len(),
    ensures
        merged(records.take(n + 1)) == merge_one(merged(records.take(n)), records[n]),
{
    assert(records.take(n + 1).drop_last() =~= records.take(n));
}

/// A merge without conflict holds every record as it stands, and nothing else.
pub proof fn lemma_merged_holds(records: Seq<(Seq<char>, nat)>)
    requires
        merged(records) is Ok,
    ensures
        forall|n: int|
            0 <= n < records.len() ==> merged(records)->Ok_0.contains_key(
                (#[trigger] records[n]).0,
            ) && merged(records)->Ok_0[records[n].0] == records[n].1,
        forall|id: Seq<char>| #[trigger]
            merged(records)->Ok_0.contains_key(id) ==> exists|n: int|
                0 <= n < records.len() && (#[trigger] records[n]).0 == id,
    decreases records.len(),
{
    if records.len() > 0 {
        let rest = records.drop_last();
        lemma_merged_holds(rest);
        let held = merged(rest)->Ok_0;
        let all = merged(records)->Ok_0;
        assert forall|n: int| 0 <= n < records.len() implies all.contains_key(
            (#[trigger] records[n]).0,
        ) && all[records[n].0] == records[n].1 by {
            if n < rest.len() {
                assert(rest[n] == records[n]);
            }
        }
        assert forall|id: Seq<char>| #[trigger] all.contains_key(id) implies exists|n: int|
            0 <= n < records.len() && (#[trigger] records[n]).0 == id by {
            if id == records.last().0 {
                assert(records[records.len() - 1].0 == id);
            } else {
                let n = choose|n: int| 0 <= n < rest.len() && (#[trigger] rest[n]).0 == id;
                assert(records[n].0 == id);
            }
        }
    }
}

/// No two records give one identifier different seats.
pub open spec fn agree(records: Seq<(Seq<char>, nat)>) -> bool {
    forall|m: int, n: int|
        0 <= m < records.len() && 0 <= n < records.len() && (#[trigger] records[m]).0 == (
        #[trigger] records[n]).0 ==> records[m].1 == records[n].1
}

/// Records merge without conflict exactly if they agree.
pub proof fn lemma_merged_iff_agree(records: Seq<(Seq<char>, nat)>)
    ensures
        merged(records) is Ok <==> agree(records),
    decreases records.len(),
{
    if records.len() > 0 {
        let rest = records.drop_last();
        let last = records.last();
        lemma_merged_iff_agree(rest);
        if agree(records) {
            assert forall|m: int, n: int|
                0 <= m < rest.len() && 0 <= n < rest.len() && (#[trigger] rest[m]).0 == (
                #[trigger] rest[n]).0 implies rest[m].1 == rest[n].1 by {
                assert(records[m].0 == records[n].0);
            }
            lemma_merged_holds(rest);
            let held = merged(rest)->Ok_0;
            if held.contains_key(last.0) {
                let n = choose|n: int| 0 <= n < rest.len() && (#[trigger] rest[n]).0 == last.0;
                assert(records[n].0 == records[records.len() - 1].0);
            }
        }
        if merged(records) is Ok {
            lemma_merged_holds(records);
        }
    }
}

/// The seats of the mega-coalitions as entries, each under the name of its
/// mega-coalition.
pub fn mega_entries(coalitions: &Vec<Vec<String>>, seats: &Levels) -> (out: Vec<(String, u64)>)
    requires
        fits(seats@, coalitions.deep_view()),
    ensures
        record_views(out@) == mega_records(coalitions.deep_view(), seats@),
{
    let ghost hierarchy = coalitions.deep_view();
    let mut out: Vec<(String, u64)> = Vec::new();
    let mut i: usize = 0;
    while i < coalitions.len()
        invariant
            i <= coalitions@.len(),
            hierarchy == coalitions.deep_view(),
            fits(seats@, hierarchy),
            out@.len() == i,
            forall|a: int|
                0 <= a < i ==> (#[trigger] out@[a]).0@ == mega_id(hierarchy[a]) && out@[a].1
                    == seats@.megas[a],
        decreases coalitions@.len() - i,
    {
        let name = mega_name(&coalitions[i]);
        out.push((name, seats.megas[i]));
        i += 1;
    }
    assert(record_views(out@) =~= mega_records(hierarchy, seats@));
    out
}

/// The seats of the coalitions as entries, each under the name of its
/// coalition.
pub fn coalition_entries(coalitions: &Vec<Vec<String>>, seats: &Levels) -> (out: Vec<
    (String, u64),
>)
    requires
        fits(seats@, coalitions.deep_view()),
    ensures
        record_views(out@) == coalition_records(coalitions.deep_view(), seats@),
{
    let ghost hierarchy = coalitions.deep_view();
    let ghost rows = Seq::new(
        hierarchy.len(),
        |i: int| coalition_records_in(hierarchy, seats@, i),
    );
    let mut out: Vec<(String, u64)> = Vec::new();
    let mut i: usize = 0;
    assert(rows.take(0) =~= Seq::<Seq<(Seq<char>, nat)>>::empty());
    assert(record_views(out@) =~= concat_all(rows.take(0)));
    while i < coalitions.len()
        invariant
            i <= coalitions@.len(),
            hierarchy == coalitions.deep_view(),
            fits(seats@, hierarchy),
            rows == Seq::new(hierarchy.len(), |i: int| coalition_records_in(hierarchy, seats@, i)),
            record_views(out@) == concat_all(rows.take(i as int)),
        decreases coalitions@.len() - i,
    {
        let mega = &coalitions[i];
        let shares = &seats.coalitions[i];
        let ghost before = record_views(out@);
        let ghost row = rows[i as int];
        assert(seats@.coalitions[i as int].len() == hierarchy[i as int].len());
        let mut j: usize = 0;
        assert(record_views(out@) =~= before + row.take(0));
        while j < mega.len()
            invariant
                j <= mega@.len(),
                i < coalitions@.len(),
                mega == coalitions@[i as int],
                i < seats.coalitions@.len(),
                shares == seats.coalitions@[i as int],
                shares@.len() == mega@.len(),
                hierarchy == coalitions.deep_view(),
                row == coalition_records_in(hierarchy, seats@, i as int),
                record_views(out@) == before + row.take(j as int),
            decreases mega@.len() - j,
        {
            let ghost old_views = record_views(out@);
            out.push((mega[j].clone(), shares[j]));
            proof {
                assert(hierarchy[i as int][j as int] == mega@[j as int]@);
                assert(seats@.coalitions[i as int][j as int] == shares@[j as int]);
                assert(record_views(out@) =~= old_views.push(row[j as int]));
            }
            assert(row.take(j + 1) =~= row.take(j as int).push(row[j as int]));
            j += 1;
            assert(record_views(out@) =~= before + row.take(j as int));
        }
        proof {
            assert(row.take(row.len() as int) =~= row);
            lemma_concat_all_step(rows, i as int);
        }
        i += 1;
    }
    assert(rows.take(rows.len() as int) =~= rows);
    out
}

/// The seats of the parties as entries, each under the label of its party.
pub fn party_entries(coalitions: &Vec<Vec<String>>, seats: &Levels) -> (out: Vec<(String, u64)>)
    requires
        fits(seats@, coalitions.deep_view()),
    ensures
        record_views(out@) == party_records(coalitions.deep_view(), seats@),
{
    let ghost hierarchy = coalitions.deep_view();
    let ghost blocks = Seq::new(hierarchy.len(), |i: int| party_records_of(hierarchy, seats@, i));
    let mut out: Vec<(String, u64)> = Vec::new();
    let mut i: usize = 0;
    assert(blocks.take(0) =~= Seq::<Seq<(Seq<char>, nat)>>::empty());
    assert(record_views(out@) =~= concat_all(blocks.take(0)));
    while i < coalitions.len()
        invariant
            i <= coalitions@.len(),
            hierarchy == coalitions.deep_view(),
            fits(seats@, hierarchy),
            blocks == Seq::new(hierarchy.len(), |i: int| party_records_of(hierarchy, seats@, i)),
            record_views(out@) == concat_all(blocks.take(i as int)),
        decreases coalitions@.len() - i,
    {
        let mega = &coalitions[i];
        let groups = &seats.parties[i];
        let ghost before = record_views(out@);
        let ghost rows = Seq::new(
            hierarchy[i as int].len(),
            |j: int| party_records_in(hierarchy, seats@, i as int, j),
        );
        assert(seats@.coalitions[i as int].len() == hierarchy[i as int].len());
        assert(seats@.parties[i as int].len() == hierarchy[i as int].len());
        let mut j: usize = 0;
        assert(rows.take(0) =~= Seq::<Seq<(Seq<char>, nat)>>::empty());
        assert(record_views(out@) =~= before + concat_all(rows.take(0)));
        while j < mega.len()
            invariant
                j <= mega@.len(),
                i < coalitions@.len(),
                mega == coalitions@[i as int],
                i < seats.parties@.len(),
                groups == seats.parties@[i as int],
                groups@.len() == mega@.len(),
                hierarchy == coalitions.deep_view(),
                fits(seats@, hierarchy),
                rows == Seq::new(
                    hierarchy[i as int].len(),
                    |j: int| party_records_in(hierarchy, seats@, i as int, j),
                ),
                record_views(out@) == before + concat_all(rows.take(j as int)),
            decreases mega@.len() - j,
        {
            let coalition = mega[j].as_str();
            let shares = &groups[j];
            let n = coalition.unicode_len();
            let ghost start = record_views(out@);
            let ghost row = rows[j as int];
            assert(coalition@ == hierarchy[i as int][j as int]);
            assert(seats@.parties[i as int][j as int].len() == hierarchy[i as int][j as int].len());
            let mut k: usize = 0;
            assert(record_views(out@) =~= start + row.take(0));
            while k < n
                invariant
                    k <= n,
                    n == coalition@.len(),
                    i < coalitions@.len(),
                    j < coalitions@[i as int]@.len(),
                    coalition@ == hierarchy[i as int][j as int],
                    i < seats.parties@.len(),
                    j < seats.parties@[i as int]@.len(),
                    shares == seats.parties@[i as int]@[j as int],
                    shares@.len() == n,
                    hierarchy == coalitions.deep_view(),
                    row == party_records_in(hierarchy, seats@, i as int, j as int),
                    record_views(out@) == start + row.take(k as int),
                decreases n - k,
            {
                let ghost old_views = record_views(out@);
                out.push((label_of(coalition, k), shares[k]));
                proof {
                    assert(seats@.parties[i as int][j as int][k as int] == shares@[k as int]);
                    assert(record_views(out@) =~= old_views.push(row[k as int]));
                }
                assert(row.take(k + 1) =~= row.take(k as int).push(row[k as int]));
                k += 1;
                assert(record_views(out@) =~= start + row.take(k as int));
            }
            proof {
                assert(row.take(row.len() as int) =~= row);
                lemma_concat_all_step(rows, j as int);
                assert(record_views(out@) =~= before + concat_all(rows.take(j + 1)));
            }
            j += 1;
        }
        proof {
            assert(rows.take(rows.len() as int) =~= rows);
            assert(blocks[i as int] == concat_all(rows));
            lemma_concat_all_step(blocks, i as int);
        }
        i += 1;
    }
    assert(blocks.take(blocks.len() as int) =~= blocks);
    out
}

/// Merges entries, in order, into one distribution. An identifier may occur
/// more than once as long as its seats are the same each time; the first
/// entry that gives an identifier other seats than an earlier one ends the
/// merge, and is reported with both counts.
pub fn merge(entries: &Vec<(String, u64)>) -> (outcome: Result<SeatDistribution, AllocationError>)
    ensures
        match outcome {
            Ok(distribution) => merged(record_views(entries@)) == Ok::<
                Map<Seq<char>, nat>,
                Conflict,
            >(distribution@),
            Err(AllocationError::Mismatch { id, before, after }) => merged(record_views(entries@))
                == Err::<Map<Seq<char>, nat>, Conflict>(
                Conflict { id: id@, before: before as nat, after: after as nat },
            ),
            Err(_) => false,
        },
{
    let ghost records = record_views(entries@);
    let mut distribution = SeatDistribution::new();
    let mut n: usize = 0;
    assert(records.take(0) =~= Seq::<(Seq<char>, nat)>::empty());
    while n < entries.len()
        invariant
            n <= entries@.len(),
            records == record_views(entries@),
            merged(records.take(n as int)) == Ok::<Map<Seq<char>, nat>, Conflict>(distribution@),
        decreases entries@.len() - n,
    {
        proof {
            lemma_merged_step(records, n as int);
        }
        match distribution.record(entries[n].0.clone(), entries[n].1) {
            Ok(_) => {},
            Err(e) => {
                proof {
                    let conflict = merged(records.take(n + 1))->Err_0;
                    assert(records =~= records.take(n + 1) + records.skip(n + 1));
                    lemma_merge_all_concat(
                        Ok(Map::empty()),
                        records.take(n + 1),
                        records.skip(n + 1),
                    );
                    lemma_merge_all_stops(conflict, records.skip(n + 1));
                }
                return Err(e);
            },
        }
        n += 1;
    }
    assert(records.take(records.len() as int) =~= records);
    Ok(distribution)
}

} // verus!

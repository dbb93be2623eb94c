//! The coalition hierarchy: parties grouped into coalitions, coalitions grouped
//! into mega-coalitions, and the identifier of each.
//!
//! A hierarchy is modelled as a sequence of mega-coalitions, a mega-coalition
//! as a sequence of coalitions, and a coalition as the sequence of the labels
//! of its parties.

use vstd::prelude::*;
use vstd::string::*;

verus! {

/// The rows of a table, one after the other.
pub open spec fn concat_all<A>(rows: Seq<Seq<A>>) -> Seq<A>
    decreases rows.len(),
{
    if rows.len() == 0 {
        Seq::empty()
    } else {
        concat_all(rows.drop_last()) + rows.last()
    }
}

/// Where the element `j` of row `i` stands in the concatenation of the rows.
pub open spec fn position_in<A>(rows: Seq<Seq<A>>, i: int, j: int) -> int {
    concat_all(rows.take(i)).len() + j
}

/// One more row adds its elements at the end.
pub proof fn lemma_concat_all_push<A>(rows: Seq<Seq<A>>, row: Seq<A>)
    ensures
        concat_all(rows.push(row)) == concat_all(rows) + row,
{
    assert(rows.push(row).drop_last() =~= rows);
}

/// The first `i + 1` rows are the first `i` rows followed by row `i`.
pub proof fn lemma_concat_all_step<A>(rows: Seq<Seq<A>>, i: int)
    requires
        0 <= i < rows.len(),
    ensures
        concat_all(rows.take(i + 1)) == concat_all(rows.take(i)) + rows[i],
{
    assert(rows.take(i + 1).drop_last() =~= rows.take(i));
}

/// The rows before row `i` end before row `i` begins, and row `i` before the
/// rows after it.
pub proof fn lemma_concat_all_prefix<A>(rows: Seq<Seq<A>>, i: int, n: int)
    requires
        0 <= i <= n <= rows.len(),
    ensures
        concat_all(rows.take(i)).len() <= concat_all(rows.take(n)).len(),
        i < n ==> concat_all(rows.take(i)).len() + rows[i].len() <= concat_all(rows.take(n)).len(),
        forall|k: int|
            0 <= k < concat_all(rows.take(i)).len() ==> concat_all(rows.take(n))[k] == concat_all(
                rows.take(i),
            )[k],
    decreases n - i,
{
    if i < n {
        lemma_concat_all_step(rows, i);
        lemma_concat_all_prefix(rows, i + 1, n);
    }
}

/// Every element of every row stands in the concatenation, at its position.
pub proof fn lemma_concat_all_holds<A>(rows: Seq<Seq<A>>, i: int, j: int)
    requires
        0 <= i < rows.len(),
        0 <= j < rows[i].len(),
    ensures
        0 <= position_in(rows, i, j) < concat_all(rows).len(),
        concat_all(rows)[position_in(rows, i, j)] == rows[i][j],
{
    lemma_concat_all_step(rows, i);
    lemma_concat_all_prefix(rows, i + 1, rows.len() as int);
    assert(rows.take(rows.len() as int) =~= rows);
}

/// Every element of the concatenation stands in one of the rows.
pub proof fn lemma_concat_all_origin<A>(rows: Seq<Seq<A>>, n: int) -> (at: (int, int))
    requires
        0 <= n < concat_all(rows).len(),
    ensures
        0 <= at.0 < rows.len(),
        0 <= at.1 < rows[at.0].len(),
        n == position_in(rows, at.0, at.1),
        rows[at.0][at.1] == concat_all(rows)[n],
    decreases rows.len(),
{
    let before = concat_all(rows.drop_last());
    if n < before.len() {
        let at = lemma_concat_all_origin(rows.drop_last(), n);
        assert(rows.drop_last().take(at.0) =~= rows.take(at.0));
        at
    } else {
        assert(rows.take(rows.len() - 1) =~= rows.drop_last());
        (rows.len() - 1, n - before.len())
    }
}

/// The identifier of a party: its label alone.
pub open spec fn party_id(party: char) -> Seq<char> {
    seq![party]
}

/// The identifier of a mega-coalition: the labels of all its parties, coalition
/// after coalition. (A coalition is its own identifier.)
pub open spec fn mega_id(mega: Seq<Seq<char>>) -> Seq<char> {
    concat_all(mega)
}

/// The identifiers of the mega-coalitions of a hierarchy, in order.
pub open spec fn mega_ids(hierarchy: Seq<Seq<Seq<char>>>) -> Seq<Seq<char>> {
    Seq::new(hierarchy.len(), |i: int| mega_id(hierarchy[i]))
}

/// The parties of a hierarchy in reading order, one entry for each place at
/// which a label stands.
pub open spec fn parties(hierarchy: Seq<Seq<Seq<char>>>) -> Seq<char> {
    concat_all(mega_ids(hierarchy))
}

/// The hierarchy, one of its mega-coalitions or one of its coalitions has no
/// member.
pub open spec fn has_empty_group(hierarchy: Seq<Seq<Seq<char>>>) -> bool {
    ||| hierarchy.len() == 0
    ||| exists|i: int| 0 <= i < hierarchy.len() && (#[trigger] hierarchy[i]).len() == 0
    ||| exists|i: int, j: int|
        0 <= i < hierarchy.len() && 0 <= j < hierarchy[i].len() && (#[trigger] hierarchy[i][j]).len()
            == 0
}

/// `id` names a mega-coalition, a coalition or a party of the hierarchy.
pub open spec fn is_entity(hierarchy: Seq<Seq<Seq<char>>>, id: Seq<char>) -> bool {
    ||| exists|i: int| 0 <= i < hierarchy.len() && id == mega_id(#[trigger] hierarchy[i])
    ||| exists|i: int, j: int|
        0 <= i < hierarchy.len() && 0 <= j < hierarchy[i].len() && id == #[trigger] hierarchy[i][j]
    ||| exists|i: int, j: int, k: int|
        0 <= i < hierarchy.len() && 0 <= j < hierarchy[i].len() && 0 <= k < hierarchy[i][j].len()
            && id == party_id(#[trigger] hierarchy[i][j][k])
}

/// Every party of every coalition is among the parties of the hierarchy.
pub proof fn lemma_parties_hold(hierarchy: Seq<Seq<Seq<char>>>, i: int, j: int, k: int)
    requires
        0 <= i < hierarchy.len(),
        0 <= j < hierarchy[i].len(),
        0 <= k < hierarchy[i][j].len(),
    ensures
        parties(hierarchy).contains(hierarchy[i][j][k]),
{
    lemma_concat_all_holds(hierarchy[i], j, k);
    let n = position_in(hierarchy[i], j, k);
    lemma_concat_all_holds(mega_ids(hierarchy), i, n);
}

/// Every party of the hierarchy stands in one of its coalitions.
pub proof fn lemma_parties_origin(hierarchy: Seq<Seq<Seq<char>>>, n: int) -> (at: (int, int, int))
    requires
        0 <= n < parties(hierarchy).len(),
    ensures
        0 <= at.0 < hierarchy.len(),
        0 <= at.1 < hierarchy[at.0].len(),
        0 <= at.2 < hierarchy[at.0][at.1].len(),
        hierarchy[at.0][at.1][at.2] == parties(hierarchy)[n],
{
    let (i, m) = lemma_concat_all_origin(mega_ids(hierarchy), n);
    let (j, k) = lemma_concat_all_origin(hierarchy[i], m);
    (i, j, k)
}

/// The name under which a mega-coalition is listed: the names of its
/// coalitions run together.
pub fn mega_name(mega: &Vec<String>) -> (name: String)
    ensures
        name@ == mega_id(mega.deep_view()),
{
    let ghost rows = mega.deep_view();
    let mut name = String::new();
    let mut j: usize = 0;
    assert(rows.take(0) =~= Seq::<Seq<char>>::empty());
    while j < mega.len()
        invariant
            j <= mega@.len(),
            rows == mega.deep_view(),
            name@ == concat_all(rows.take(j as int)),
        decreases mega@.len() - j,
    {
        proof {
            lemma_concat_all_step(rows, j as int);
        }
        name.append(mega[j].as_str());
        j += 1;
    }
    assert(rows.take(rows.len() as int) =~= rows);
    name
}

/// The parties of a hierarchy in reading order.
pub fn parties_of(coalitions: &Vec<Vec<String>>) -> (all: Vec<char>)
    ensures
        all@ == parties(coalitions.deep_view()),
{
    let ghost hierarchy = coalitions.deep_view();
    let ghost ids = mega_ids(hierarchy);
    let mut all: Vec<char> = Vec::new();
    let mut i: usize = 0;
    assert(ids.take(0) =~= Seq::<Seq<char>>::empty());
    while i < coalitions.len()
        invariant
            i <= coalitions@.len(),
            hierarchy == coalitions.deep_view(),
            ids == mega_ids(hierarchy),
            all@ == concat_all(ids.take(i as int)),
        decreases coalitions@.len() - i,
    {
        let mega = &coalitions[i];
        let ghost rows = mega.deep_view();
        let ghost before = all@;
        let mut j: usize = 0;
        assert(rows.take(0) =~= Seq::<Seq<char>>::empty());
        while j < mega.len()
            invariant
                j <= mega@.len(),
                rows == mega.deep_view(),
                all@ == before + concat_all(rows.take(j as int)),
            decreases mega@.len() - j,
        {
            let coalition = mega[j].as_str();
            let n = coalition.unicode_len();
            let ghost start = all@;
            let mut k: usize = 0;
            while k < n
                invariant
                    k <= n,
                    n == coalition@.len(),
                    all@ == start + coalition@.take(k as int),
                decreases n - k,
            {
                all.push(coalition.get_char(k));
                k += 1;
                assert(coalition@.take(k as int) =~= coalition@.take(k - 1).push(coalition@[k - 1]));
            }
            proof {
                assert(coalition@.take(n as int) =~= coalition@);
                lemma_concat_all_step(rows, j as int);
            }
            j += 1;
        }
        proof {
            assert(rows.take(rows.len() as int) =~= rows);
            assert(ids[i as int] == mega_id(rows));
            lemma_concat_all_step(ids, i as int);
        }
        i += 1;
    }
    assert(ids.take(ids.len() as int) =~= ids);
    all
}

/// Whether the hierarchy, one of its mega-coalitions or one of its coalitions
/// has no member.
pub fn some_group_empty(coalitions: &Vec<Vec<String>>) -> (empty: bool)
    ensures
        empty == has_empty_group(coalitions.deep_view()),
{
    let ghost hierarchy = coalitions.deep_view();
    if coalitions.len() == 0 {
        return true;
    }
    let mut i: usize = 0;
    while i < coalitions.len()
        invariant
            i <= coalitions@.len(),
            hierarchy == coalitions.deep_view(),
            forall|a: int| 0 <= a < i ==> (#[trigger] hierarchy[a]).len() > 0,
            forall|a: int, b: int|
                0 <= a < i && 0 <= b < hierarchy[a].len() ==> (#[trigger] hierarchy[a][b]).len() > 0,
        decreases coalitions@.len() - i,
    {
        let mega = &coalitions[i];
        if mega.len() == 0 {
            assert(hierarchy[i as int].len() == 0);
            return true;
        }
        let mut j: usize = 0;
        while j < mega.len()
            invariant
                j <= mega@.len(),
                i < coalitions@.len(),
                hierarchy == coalitions.deep_view(),
                mega == coalitions@[i as int],
                forall|b: int| 0 <= b < j ==> (#[trigger] hierarchy[i as int][b]).len() > 0,
            decreases mega@.len() - j,
        {
            if mega[j].as_str().unicode_len() == 0 {
                assert(hierarchy[i as int][j as int].len() == 0);
                return true;
            }
            j += 1;
        }
        i += 1;
    }
    false
}

} // verus!

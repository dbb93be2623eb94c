//! What a report of a distribution shows: the groups that are more than one
//! party, and the entries ranked by their seats.

use vstd::prelude::*;
use vstd::string::*;
use crate::distribution::{ascending, lemma_table_holds_entry, lemma_table_len, SeatDistribution};
use crate::hierarchy::{concat_all, lemma_concat_all_step, mega_id, mega_name};
use crate::text::sorts_before;

verus! {

/// The name under which a mega-coalition is shown: the names of its coalitions
/// with a `+` between them.
pub open spec fn display_name(mega: Seq<Seq<char>>) -> Seq<char>
    decreases mega.len(),
{
    if mega.len() == 0 {
        Seq::empty()
    } else if mega.len() == 1 {
        mega[0]
    } else {
        display_name(mega.drop_last()).push('+') + mega.last()
    }
}

/// A mega-coalition is shown unless its name is a single label: it then is a
/// party, and is listed with the parties.
pub open spec fn shows_mega(mega: Seq<Seq<char>>) -> bool {
    display_name(mega).len() != 1
}

/// A coalition is shown below its mega-coalition if it is not the only one, and
/// is more than one party.
pub open spec fn shows_coalition(mega: Seq<Seq<char>>, j: int) -> bool {
    mega.len() > 1 && mega[j].len() > 1
}

/// A line of the report: the name shown, the identifier under which the seats
/// are held, and whether the line stands below the line of a mega-coalition.
#[derive(Debug, PartialEq, Eq)]
pub struct GroupLine {
    pub shown: String,
    pub id: String,
    pub nested: bool,
}

/// A line of the report as plain values.
pub ghost struct GroupLineView {
    pub shown: Seq<char>,
    pub id: Seq<char>,
    pub nested: bool,
}

impl View for GroupLine {
    type V = GroupLineView;

    open spec fn view(&self) -> GroupLineView {
        GroupLineView { shown: self.shown@, id: self.id@, nested: self.nested }
    }
}

/// The lines of a list, as plain values.
pub open spec fn line_views(lines: Seq<GroupLine>) -> Seq<GroupLineView> {
    Seq::new(lines.len(), |n: int| lines[n]@)
}

/// The lines of the first `n` coalitions of a mega-coalition that are shown.
pub open spec fn nested_lines(mega: Seq<Seq<char>>, n: int) -> Seq<GroupLineView>
    decreases n,
{
    if n <= 0 {
        Seq::empty()
    } else if shows_coalition(mega, n - 1) {
        nested_lines(mega, n - 1).push(
            GroupLineView { shown: mega[n - 1], id: mega[n - 1], nested: true },
        )
    } else {
        nested_lines(mega, n - 1)
    }
}

/// The lines of one mega-coalition: its own, and below it those of its
/// coalitions that are shown; none at all if the mega-coalition is not shown.
pub open spec fn lines_of(mega: Seq<Seq<char>>) -> Seq<GroupLineView> {
    if shows_mega(mega) {
        seq![GroupLineView { shown: display_name(mega), id: mega_id(mega), nested: false }]
            + nested_lines(mega, mega.len() as int)
    } else {
        Seq::empty()
    }
}

/// The lines of a hierarchy, mega-coalition after mega-coalition.
pub open spec fn shown_lines(hierarchy: Seq<Seq<Seq<char>>>) -> Seq<GroupLineView> {
    concat_all(Seq::new(hierarchy.len(), |i: int| lines_of(hierarchy[i])))
}

/// The name under which a mega-coalition is shown.
pub fn display_name_of(mega: &Vec<String>) -> (name: String)
    ensures
        name@ == display_name(mega.deep_view()),
{
    let ghost rows = mega.deep_view();
    let mut name = String::new();
    let mut j: usize = 0;
    assert(rows.take(0) =~= Seq::<Seq<char>>::empty());
    while j < mega.len()
        invariant
            j <= mega@.len(),
            rows == mega.deep_view(),
            name@ == display_name(rows.take(j as int)),
        decreases mega@.len() - j,
    {
        proof {
            reveal_strlit("+");
            assert(rows.take(j + 1).drop_last() =~= rows.take(j as int));
            assert("+"@ =~= seq!['+']);
        }
        if j > 0 {
            name.append("+");
        }
        name.append(mega[j].as_str());
        proof {
            if j > 0 {
                assert(name@ =~= display_name(rows.take(j as int)).push('+') + rows[j as int]);
            } else {
                assert(name@ =~= rows[0]);
            }
        }
        j += 1;
    }
    assert(rows.take(rows.len() as int) =~= rows);
    name
}

/// The lines that a report shows for the groups of a hierarchy, in the order
/// of the hierarchy.
pub fn group_lines(coalitions: &Vec<Vec<String>>) -> (lines: Vec<GroupLine>)
    ensures
        line_views(lines@) == shown_lines(coalitions.deep_view()),
{
    let ghost hierarchy = coalitions.deep_view();
    let ghost blocks = Seq::new(hierarchy.len(), |i: int| lines_of(hierarchy[i]));
    let mut lines: Vec<GroupLine> = Vec::new();
    let mut i: usize = 0;
    assert(blocks.take(0) =~= Seq::<Seq<GroupLineView>>::empty());
    assert(line_views(lines@) =~= concat_all(blocks.take(0)));
    while i < coalitions.len()
        invariant
            i <= coalitions@.len(),
            hierarchy == coalitions.deep_view(),
            blocks == Seq::new(hierarchy.len(), |i: int| lines_of(hierarchy[i])),
            line_views(lines@) == concat_all(blocks.take(i as int)),
        decreases coalitions@.len() - i,
    {
        let mega = &coalitions[i];
        let ghost rows = hierarchy[i as int];
        let ghost before = line_views(lines@);
        let shown = display_name_of(mega);
        proof {
            lemma_concat_all_step(blocks, i as int);
        }
        if shown.as_str().unicode_len() != 1 {
            let ghost head = GroupLineView {
                shown: display_name(rows),
                id: mega_id(rows),
                nested: false,
            };
            lines.push(GroupLine { shown, id: mega_name(mega), nested: false });
            assert(line_views(lines@) =~= before + seq![head] + nested_lines(rows, 0));
            let mut j: usize = 0;
            while j < mega.len()
                invariant
                    j <= mega@.len(),
                    i < coalitions@.len(),
                    mega == coalitions@[i as int],
                    hierarchy == coalitions.deep_view(),
                    rows == hierarchy[i as int],
                    line_views(lines@) == before + seq![head] + nested_lines(rows, j as int),
                decreases mega@.len() - j,
            {
                let ghost so_far = line_views(lines@);
                if mega.len() > 1 && mega[j].as_str().unicode_len() > 1 {
                    lines.push(
                        GroupLine { shown: mega[j].clone(), id: mega[j].clone(), nested: true },
                    );
                    assert(line_views(lines@) =~= so_far.push(
                        GroupLineView { shown: rows[j as int], id: rows[j as int], nested: true },
                    ));
                }
                j += 1;
                assert(line_views(lines@) =~= before + seq![head] + nested_lines(rows, j as int));
            }
            assert(line_views(lines@) =~= before + lines_of(rows));
        } else {
            assert(line_views(lines@) =~= before + lines_of(rows));
        }
        i += 1;
    }
    assert(blocks.take(blocks.len() as int) =~= blocks);
    lines
}

/// The entry `a` is ranked before the entry `b`: it has more seats, or as many
/// and the identifier that sorts first.
pub open spec fn ranks_before(a: (String, u64), b: (String, u64)) -> bool {
    a.1 > b.1 || (a.1 == b.1 && sorts_before(a.0@, b.0@))
}

/// The entries stand in the order of their rank.
pub open spec fn ranked(entries: Seq<(String, u64)>) -> bool {
    forall|i: int, j: int|
        0 <= i < j < entries.len() ==> ranks_before(#[trigger] entries[i], #[trigger] entries[j])
}

/// `entries` lists what `held` holds: every identifier with its seats, no
/// other identifier, and none twice.
pub open spec fn lists_all(entries: Seq<(String, u64)>, held: Map<Seq<char>, nat>) -> bool {
    &&& held.dom().finite()
    &&& entries.len() == held.dom().len()
    &&& forall|n: int|
        0 <= n < entries.len() ==> held.contains_key((#[trigger] entries[n]).0@) && held[entries[n].0@]
            == entries[n].1
    &&& forall|id: Seq<char>| #[trigger]
        held.contains_key(id) ==> exists|n: int|
            0 <= n < entries.len() && (#[trigger] entries[n]).0@ == id
}

/// An entry put between the entries ranked before it and those ranked after it
/// keeps the list in the order of rank.
proof fn lemma_ranked_insert(entries: Seq<(String, u64)>, p: int, entry: (String, u64))
    requires
        ranked(entries),
        0 <= p <= entries.len(),
        forall|m: int| 0 <= m < p ==> ranks_before(#[trigger] entries[m], entry),
        forall|m: int| p <= m < entries.len() ==> ranks_before(entry, #[trigger] entries[m]),
    ensures
        ranked(entries.insert(p, entry)),
{
    let after = entries.insert(p, entry);
    assert forall|i: int, j: int| 0 <= i < j < after.len() implies ranks_before(
        #[trigger] after[i],
        #[trigger] after[j],
    ) by {
        if i != p && j != p {
            let from_i = if i < p { i } else { i - 1 };
            let from_j = if j < p { j } else { j - 1 };
            assert(ranks_before(entries[from_i], entries[from_j]));
        } else if j == p {
            assert(ranks_before(entries[i], entry));
        } else {
            assert(ranks_before(entry, entries[j - 1]));
        }
    }
}

/// The entries of a distribution by rank: most seats first, and of entries
/// with equally many seats the one whose identifier sorts first.
pub fn party_ranking(distribution: &SeatDistribution) -> (out: Vec<(String, u64)>)
    ensures
        ranked(out@),
        lists_all(out@, distribution@),
{
    let entries = distribution.entries();
    let mut out: Vec<(String, u64)> = Vec::new();
    let ghost mut origin: Seq<int> = Seq::empty();
    let ghost mut place: Seq<int> = Seq::empty();
    let mut n: usize = 0;
    while n < entries.len()
        invariant
            n <= entries@.len(),
            ascending(entries@),
            ranked(out@),
            out@.len() == n,
            origin.len() == n,
            place.len() == n,
            forall|m: int|
                0 <= m < n ==> 0 <= #[trigger] origin[m] < n && entries@[origin[m]].0@ == out@[m].0@
                    && entries@[origin[m]].1 == out@[m].1,
            forall|k: int|
                0 <= k < n ==> 0 <= #[trigger] place[k] < n && out@[place[k]].0@ == entries@[k].0@,
        decreases entries@.len() - n,
    {
        let seats = entries[n].1;
        let mut p: usize = out.len();
        while p > 0 && out[p - 1].1 < seats
            invariant
                p <= out@.len(),
                forall|m: int| p <= m < out@.len() ==> (#[trigger] out@[m]).1 < seats,
            decreases p,
        {
            p -= 1;
        }
        let ghost before = out@;
        let ghost origin_before = origin;
        let ghost place_before = place;
        let entry = (entries[n].0.clone(), seats);
        proof {
            assert forall|m: int| 0 <= m < p implies ranks_before(#[trigger] before[m], entry) by {
                assert(before[p - 1].1 >= seats);
                if m < p - 1 {
                    assert(ranks_before(before[m], before[p - 1]));
                }
                let k = origin_before[m];
                assert(sorts_before(entries@[k].0@, entries@[n as int].0@));
            }
            lemma_ranked_insert(before, p as int, entry);
            origin = origin_before.insert(p as int, n as int);
            place = Seq::new(
                (n + 1) as nat,
                |k: int|
                    if k == n {
                        p as int
                    } else if place_before[k] < p {
                        place_before[k]
                    } else {
                        place_before[k] + 1
                    },
            );
        }
        out.insert(p, entry);
        proof {
            assert forall|m: int| 0 <= m < n + 1 implies 0 <= #[trigger] origin[m] < n + 1
                && entries@[origin[m]].0@ == out@[m].0@ && entries@[origin[m]].1 == out@[m].1 by {
                if m < p {
                    assert(origin[m] == origin_before[m]);
                } else if m > p {
                    assert(origin[m] == origin_before[m - 1]);
                }
            }
            assert forall|k: int| 0 <= k < n + 1 implies 0 <= #[trigger] place[k] < n + 1
                && out@[place[k]].0@ == entries@[k].0@ by {
                if k < n {
                    let m = place_before[k];
                    assert(before[m].0@ == entries@[k].0@);
                }
            }
        }
        n += 1;
    }
    proof {
        lemma_table_len(entries@);
        assert forall|m: int| 0 <= m < out@.len() implies distribution@.contains_key(
            (#[trigger] out@[m]).0@,
        ) && distribution@[out@[m].0@] == out@[m].1 by {
            lemma_table_holds_entry(entries@, origin[m]);
        }
        assert forall|id: Seq<char>| #[trigger] distribution@.contains_key(id) implies exists|
            m: int,
        | 0 <= m < out@.len() && (#[trigger] out@[m]).0@ == id by {
            let k = choose|k: int| 0 <= k < entries@.len() && (#[trigger] entries@[k]).0@ == id;
            assert(out@[place[k]].0@ == id);
        }
    }
    out
}

} // verus!

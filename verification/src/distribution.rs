//! The seat distribution: a map from identifiers to seat counts that lists its
//! entries in ascending order of identifier.

use vstd::prelude::*;
use vstd::string::*;
use crate::error::AllocationError;
use crate::text::{
    lemma_sorts_before_irreflexive, lemma_sorts_before_transitive, place_of, sorts_before, Place,
};

verus! {

/// The identifiers of `entries` stand in strictly ascending order.
pub open spec fn ascending(entries: Seq<(String, u64)>) -> bool {
    forall|i: int, j: int|
        0 <= i < j < entries.len() ==> sorts_before(
            (#[trigger] entries[i]).0@,
            (#[trigger] entries[j]).0@,
        )
}

/// Some entry carries the identifier `id`.
pub open spec fn lists(entries: Seq<(String, u64)>, id: Seq<char>) -> bool {
    exists|i: int| 0 <= i < entries.len() && (#[trigger] entries[i]).0@ == id
}

/// The position of an entry that carries the identifier `id`.
pub open spec fn slot(entries: Seq<(String, u64)>, id: Seq<char>) -> int {
    choose|i: int| 0 <= i < entries.len() && (#[trigger] entries[i]).0@ == id
}

/// The map that a list of entries stands for.
pub open spec fn table(entries: Seq<(String, u64)>) -> Map<Seq<char>, nat> {
    Map::new(|id: Seq<char>| lists(entries, id), |id: Seq<char>| entries[slot(entries, id)].1 as nat)
}

/// In an ascending list each identifier occurs once, so the map holds every
/// entry as it stands.
pub proof fn lemma_table_holds_entry(entries: Seq<(String, u64)>, i: int)
    requires
        ascending(entries),
        0 <= i < entries.len(),
    ensures
        table(entries).contains_key(entries[i].0@),
        table(entries)[entries[i].0@] == entries[i].1,
        slot(entries, entries[i].0@) == i,
{
    let id = entries[i].0@;
    let s = slot(entries, id);
    if s < i {
        lemma_sorts_before_irreflexive(entries[s].0@, entries[i].0@);
    } else if i < s {
        lemma_sorts_before_irreflexive(entries[i].0@, entries[s].0@);
    }
}

/// Putting a new identifier at its place in an ascending list adds it to the
/// map and keeps the list ascending.
proof fn lemma_table_insert(entries: Seq<(String, u64)>, p: int, entry: (String, u64))
    requires
        ascending(entries),
        0 <= p <= entries.len(),
        forall|i: int| 0 <= i < p ==> sorts_before((#[trigger] entries[i]).0@, entry.0@),
        p < entries.len() ==> sorts_before(entry.0@, entries[p].0@),
    ensures
        ascending(entries.insert(p, entry)),
        !lists(entries, entry.0@),
        table(entries.insert(p, entry)) == table(entries).insert(entry.0@, entry.1 as nat),
{
    let after = entries.insert(p, entry);
    assert forall|i: int| p <= i < entries.len() implies sorts_before(
        entry.0@,
        (#[trigger] entries[i]).0@,
    ) by {
        if p < i {
            lemma_sorts_before_transitive(entry.0@, entries[p].0@, entries[i].0@);
        }
    }
    assert forall|i: int| 0 <= i < entries.len() implies (#[trigger] entries[i]).0@ != entry.0@ by {
        if i < p {
            lemma_sorts_before_irreflexive(entries[i].0@, entry.0@);
        } else {
            lemma_sorts_before_irreflexive(entry.0@, entries[i].0@);
        }
    }
    assert(ascending(after));
    lemma_table_holds_entry(after, p);
    assert forall|id: Seq<char>| #[trigger]
        table(after).contains_key(id) == table(entries).insert(entry.0@, entry.1 as nat).contains_key(
            id,
        ) by {
        if lists(entries, id) {
            let s = slot(entries, id);
            if s < p {
                assert(after[s].0@ == id);
            } else {
                assert(after[s + 1].0@ == id);
            }
        }
        if lists(after, id) {
            let s = slot(after, id);
            if s < p {
                assert(entries[s].0@ == id);
            } else if s > p {
                assert(entries[s - 1].0@ == id);
            }
        }
    }
    assert forall|id: Seq<char>| #[trigger] table(after).contains_key(id) implies table(after)[id]
        == table(entries).insert(entry.0@, entry.1 as nat)[id] by {
        if id != entry.0@ {
            let s = slot(entries, id);
            lemma_table_holds_entry(entries, s);
            if s < p {
                lemma_table_holds_entry(after, s);
            } else {
                lemma_table_holds_entry(after, s + 1);
            }
        }
    }
    assert(table(after) =~= table(entries).insert(entry.0@, entry.1 as nat));
}

/// Replacing the seats of an identifier that is listed changes the map at that
/// identifier only.
proof fn lemma_table_update(entries: Seq<(String, u64)>, p: int, entry: (String, u64))
    requires
        ascending(entries),
        0 <= p < entries.len(),
        entries[p].0@ == entry.0@,
    ensures
        ascending(entries.update(p, entry)),
        table(entries.update(p, entry)) == table(entries).insert(entry.0@, entry.1 as nat),
{
    let after = entries.update(p, entry);
    assert forall|i: int, j: int| 0 <= i < j < after.len() implies sorts_before(
        (#[trigger] after[i]).0@,
        (#[trigger] after[j]).0@,
    ) by {
        assert(sorts_before(entries[i].0@, entries[j].0@));
    }
    lemma_table_holds_entry(after, p);
    assert forall|id: Seq<char>| #[trigger]
        table(after).contains_key(id) == table(entries).insert(entry.0@, entry.1 as nat).contains_key(
            id,
        ) by {
        if lists(entries, id) {
            assert(after[slot(entries, id)].0@ == id);
        }
        if lists(after, id) {
            assert(entries[slot(after, id)].0@ == id);
        }
        assert(entries[p].0@ == entry.0@);
    }
    assert forall|id: Seq<char>| #[trigger] table(after).contains_key(id) implies table(after)[id]
        == table(entries).insert(entry.0@, entry.1 as nat)[id] by {
        if id != entry.0@ {
            let s = slot(entries, id);
            lemma_table_holds_entry(entries, s);
            lemma_table_holds_entry(after, s);
        }
    }
    assert(table(after) =~= table(entries).insert(entry.0@, entry.1 as nat));
}

/// Taking a listed identifier out of an ascending list takes it out of the
/// map.
proof fn lemma_table_remove(entries: Seq<(String, u64)>, p: int)
    requires
        ascending(entries),
        0 <= p < entries.len(),
    ensures
        ascending(entries.remove(p)),
        table(entries.remove(p)) == table(entries).remove(entries[p].0@),
{
    let after = entries.remove(p);
    let gone = entries[p].0@;
    assert forall|i: int, j: int| 0 <= i < j < after.len() implies sorts_before(
        (#[trigger] after[i]).0@,
        (#[trigger] after[j]).0@,
    ) by {
        let from_i = if i < p { i } else { i + 1 };
        let from_j = if j < p { j } else { j + 1 };
        assert(sorts_before(entries[from_i].0@, entries[from_j].0@));
    }
    assert forall|id: Seq<char>| #[trigger]
        table(after).contains_key(id) == table(entries).remove(gone).contains_key(id) by {
        if lists(entries, id) && id != gone {
            let s = slot(entries, id);
            if s < p {
                assert(after[s].0@ == id);
            } else {
                assert(after[s - 1].0@ == id);
            }
        }
        if lists(after, id) {
            let s = slot(after, id);
            let from = if s < p { s } else { s + 1 };
            assert(entries[from].0@ == id);
            lemma_table_holds_entry(entries, from);
            lemma_table_holds_entry(entries, p);
        }
    }
    assert forall|id: Seq<char>| #[trigger] table(after).contains_key(id) implies table(after)[id]
        == table(entries).remove(gone)[id] by {
        let s = slot(after, id);
        let from = if s < p { s } else { s + 1 };
        lemma_table_holds_entry(after, s);
        lemma_table_holds_entry(entries, from);
    }
    assert(table(after) =~= table(entries).remove(gone));
}

/// Seats by identifier: of a party, a coalition or a mega-coalition.
#[derive(Debug, PartialEq, Eq)]
pub struct SeatDistribution {
    entries: Vec<(String, u64)>,
}

impl View for SeatDistribution {
    type V = Map<Seq<char>, nat>;

    closed spec fn view(&self) -> Map<Seq<char>, nat> {
        table(self.entries@)
    }
}

impl SeatDistribution {
    #[verifier::type_invariant]
    spec fn inv(&self) -> bool {
        ascending(self.entries@)
    }

    /// The distribution that holds no identifier.
    pub fn new() -> (empty: Self)
        ensures
            empty@ == Map::<Seq<char>, nat>::empty(),
    {
        let empty = SeatDistribution { entries: Vec::new() };
        assert(empty@ =~= Map::<Seq<char>, nat>::empty());
        empty
    }

    /// Finds the place of `id` in the list: the position of its entry, or the
    /// position at which an entry for it belongs.
    fn locate(&self, id: &str) -> (found: (usize, bool))
        ensures
            found.0 <= self.entries@.len(),
            forall|i: int| 0 <= i < found.0 ==> sorts_before((#[trigger] self.entries@[i]).0@, id@),
            found.1 ==> found.0 < self.entries@.len() && self.entries@[found.0 as int].0@ == id@,
            !found.1 && found.0 < self.entries@.len() ==> sorts_before(
                id@,
                self.entries@[found.0 as int].0@,
            ),
    {
        let mut p: usize = 0;
        while p < self.entries.len()
            invariant
                p <= self.entries@.len(),
                forall|i: int| 0 <= i < p ==> sorts_before((#[trigger] self.entries@[i]).0@, id@),
            decreases self.entries@.len() - p,
        {
            match place_of(self.entries[p].0.as_str(), id) {
                Place::Before => {
                    p += 1;
                },
                Place::Same => {
                    return (p, true);
                },
                Place::After => {
                    return (p, false);
                },
            }
        }
        (p, false)
    }

    /// The seats recorded for `id`, if any.
    pub fn get(&self, id: &str) -> (seats: Option<u64>)
        ensures
            seats is Some <==> self@.contains_key(id@),
            seats is Some ==> self@[id@] == seats->0,
    {
        proof {
            use_type_invariant(self);
        }
        let (p, found) = self.locate(id);
        proof {
            if found {
                lemma_table_holds_entry(self.entries@, p as int);
            } else {
                lemma_absent(self.entries@, p as int, id@);
            }
        }
        if found {
            Some(self.entries[p].1)
        } else {
            None
        }
    }

    /// Whether seats are recorded for `id`.
    pub fn contains_key(&self, id: &str) -> (held: bool)
        ensures
            held == self@.contains_key(id@),
    {
        self.get(id).is_some()
    }

    /// The number of identifiers that have seats recorded.
    pub fn len(&self) -> (count: usize)
        ensures
            self@.dom().finite(),
            count == self@.dom().len(),
    {
        proof {
            use_type_invariant(self);
            lemma_table_len(self.entries@);
        }
        self.entries.len()
    }

    /// Records `seats` for `id`, replacing what was recorded for it, and returns
    /// what was recorded before.
    pub fn insert(&mut self, id: String, seats: u64) -> (previous: Option<u64>)
        ensures
            final(self)@ == old(self)@.insert(id@, seats as nat),
            previous is Some <==> old(self)@.contains_key(id@),
            previous is Some ==> old(self)@[id@] == previous->0,
    {
        proof {
            use_type_invariant(&*self);
        }
        let (p, found) = self.locate(id.as_str());
        let mut entries: Vec<(String, u64)> = Vec::new();
        std::mem::swap(&mut entries, &mut self.entries);
        let ghost before = entries@;
        let previous = if found {
            let held = entries[p].1;
            proof {
                lemma_table_holds_entry(before, p as int);
                lemma_table_update(before, p as int, (id, seats));
            }
            entries.set(p, (id, seats));
            Some(held)
        } else {
            proof {
                lemma_table_insert(before, p as int, (id, seats));
            }
            entries.insert(p, (id, seats));
            None
        };
        self.entries = entries;
        previous
    }

    /// Records `seats` for `id` unless other seats are recorded for it already,
    /// in which case nothing changes and the two counts are reported.
    pub fn record(&mut self, id: String, seats: u64) -> (outcome: Result<(), AllocationError>)
        ensures
            match outcome {
                Ok(_) => {
                    &&& old(self)@.contains_key(id@) ==> old(self)@[id@] == seats
                    &&& final(self)@ == old(self)@.insert(id@, seats as nat)
                },
                Err(e) => {
                    &&& old(self)@.contains_key(id@)
                    &&& old(self)@[id@] != seats
                    &&& final(self)@ == old(self)@
                    &&& e == (AllocationError::Mismatch {
                        id,
                        before: old(self)@[id@] as u64,
                        after: seats,
                    })
                    &&& old(self)@[id@] <= u64::MAX
                },
            },
    {
        match self.get(id.as_str()) {
            Some(before) => {
                if before != seats {
                    return Err(AllocationError::Mismatch { id, before, after: seats });
                }
            },
            None => {},
        }
        self.insert(id, seats);
        Ok(())
    }

    /// Takes the entry of `id` out of the distribution and returns its seats,
    /// if it had any.
    pub fn remove(&mut self, id: &str) -> (seats: Option<u64>)
        ensures
            final(self)@ == old(self)@.remove(id@),
            seats is Some <==> old(self)@.contains_key(id@),
            seats is Some ==> old(self)@[id@] == seats->0,
    {
        proof {
            use_type_invariant(&*self);
        }
        let (p, found) = self.locate(id);
        if !found {
            proof {
                lemma_absent(self.entries@, p as int, id@);
                assert(self@ =~= self@.remove(id@));
            }
            return None;
        }
        let mut entries: Vec<(String, u64)> = Vec::new();
        std::mem::swap(&mut entries, &mut self.entries);
        proof {
            lemma_table_holds_entry(entries@, p as int);
            lemma_table_remove(entries@, p as int);
        }
        let gone = entries.remove(p);
        self.entries = entries;
        Some(gone.1)
    }

    /// The entries as pairs of identifier and seats, in ascending order of
    /// identifier.
    pub fn entries(&self) -> (out: Vec<(String, u64)>)
        ensures
            ascending(out@),
            table(out@) == self@,
    {
        proof {
            use_type_invariant(self);
        }
        let mut out: Vec<(String, u64)> = Vec::new();
        let mut i: usize = 0;
        while i < self.entries.len()
            invariant
                i <= self.entries@.len(),
                out@.len() == i,
                forall|k: int|
                    0 <= k < i ==> (#[trigger] out@[k]).0@ == self.entries@[k].0@ && out@[k].1
                        == self.entries@[k].1,
            decreases self.entries@.len() - i,
        {
            out.push((self.entries[i].0.clone(), self.entries[i].1));
            i += 1;
        }
        proof {
            lemma_same_table(self.entries@, out@);
        }
        out
    }
}

/// An ascending list stands for a map with as many keys as the list has
/// entries.
pub proof fn lemma_table_len(entries: Seq<(String, u64)>)
    requires
        ascending(entries),
    ensures
        table(entries).dom().finite(),
        table(entries).dom().len() == entries.len(),
    decreases entries.len(),
{
    if entries.len() == 0 {
        assert(table(entries).dom() =~= Set::<Seq<char>>::empty());
    } else {
        let rest = entries.drop_last();
        let p = entries.len() - 1;
        lemma_table_len(rest);
        assert(entries =~= rest.insert(p, entries.last()));
        lemma_table_insert(rest, p, entries.last());
        assert(table(entries).dom() =~= table(rest).dom().insert(entries.last().0@));
    }
}

/// An identifier that would stand at position `p` of an ascending list, and does
/// not, is not listed.
proof fn lemma_absent(entries: Seq<(String, u64)>, p: int, id: Seq<char>)
    requires
        ascending(entries),
        0 <= p <= entries.len(),
        forall|i: int| 0 <= i < p ==> sorts_before((#[trigger] entries[i]).0@, id),
        p < entries.len() ==> sorts_before(id, entries[p].0@),
    ensures
        !lists(entries, id),
        !table(entries).contains_key(id),
{
    if lists(entries, id) {
        let s = slot(entries, id);
        if s < p {
            lemma_sorts_before_irreflexive(entries[s].0@, id);
        } else {
            if p < s {
                lemma_sorts_before_transitive(id, entries[p].0@, entries[s].0@);
            }
            lemma_sorts_before_irreflexive(id, entries[s].0@);
        }
    }
}

/// Two lists with the same identifiers and seats, position by position, stand
/// for the same map.
proof fn lemma_same_table(a: Seq<(String, u64)>, b: Seq<(String, u64)>)
    requires
        ascending(a),
        a.len() == b.len(),
        forall|k: int| 0 <= k < a.len() ==> (#[trigger] b[k]).0@ == a[k].0@ && b[k].1 == a[k].1,
    ensures
        ascending(b),
        table(b) == table(a),
{
    assert forall|i: int, j: int| 0 <= i < j < b.len() implies sorts_before(
        (#[trigger] b[i]).0@,
        (#[trigger] b[j]).0@,
    ) by {
        assert(sorts_before(a[i].0@, a[j].0@));
    }
    assert forall|id: Seq<char>| #[trigger] table(a).contains_key(id) == table(b).contains_key(
        id,
    ) by {
        if lists(a, id) {
            assert(b[slot(a, id)].0@ == id);
        }
        if lists(b, id) {
            assert(a[slot(b, id)].0@ == id);
        }
    }
    assert forall|id: Seq<char>| #[trigger] table(a).contains_key(id) implies table(a)[id] == table(
        b,
    )[id] by {
        let s = slot(a, id);
        lemma_table_holds_entry(a, s);
        lemma_table_holds_entry(b, s);
    }
    assert(table(a) =~= table(b));
}

} // verus!

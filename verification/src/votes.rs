//! The votes collected, by party.

use vstd::prelude::*;
use vstd::set_lib::lemma_subset_equality;
use std::collections::HashMap;
use std::collections::HashSet;

verus! {

broadcast use vstd::std_specs::hash::group_hash_axioms;

/// The code points that are characters: all up to `0x10FFFF` but the
/// surrogates.
pub open spec fn is_scalar(code: u32) -> bool {
    code <= 0xD7FF || (0xE000 <= code && code <= 0x10FFFF)
}

/// The code of a character is a scalar value from which the character can be
/// had back.
pub proof fn lemma_code_of_char(party: char)
    ensures
        is_scalar(party as u32),
        (party as u32) as char == party,
{
}

/// A scalar value is the code of the character that it stands for.
pub proof fn lemma_char_of_code(code: u32)
    requires
        is_scalar(code),
    ensures
        (code as char) as u32 == code,
{
}

/// The vote count of each party, found by the party's label.
pub struct VoteTable {
    by_code: HashMap<u32, u64>,
}

impl View for VoteTable {
    type V = Map<char, nat>;

    closed spec fn view(&self) -> Map<char, nat> {
        Map::new(
            |party: char| self.by_code@.contains_key(party as u32),
            |party: char| self.by_code@[party as u32] as nat,
        )
    }
}

impl VoteTable {
    #[verifier::type_invariant]
    spec fn inv(&self) -> bool {
        forall|code: u32| self.by_code@.contains_key(code) ==> is_scalar(code)
    }

    /// The table in which no party has votes.
    pub fn new() -> (empty: Self)
        ensures
            empty@ == Map::<char, nat>::empty(),
    {
        let empty = VoteTable { by_code: HashMap::new() };
        assert(empty@ =~= Map::<char, nat>::empty());
        empty
    }

    /// Records `votes` for `party`, replacing what was recorded for it, and
    /// returns what was recorded before.
    pub fn insert(&mut self, party: char, votes: u64) -> (previous: Option<u64>)
        ensures
            final(self)@ == old(self)@.insert(party, votes as nat),
            previous is Some <==> old(self)@.contains_key(party),
            previous is Some ==> old(self)@[party] == previous->0,
    {
        proof {
            use_type_invariant(&*self);
        }
        let mut by_code: HashMap<u32, u64> = HashMap::new();
        std::mem::swap(&mut by_code, &mut self.by_code);
        let previous = by_code.insert(party as u32, votes);
        proof {
            lemma_code_of_char(party);
            assert forall|code: u32| by_code@.contains_key(code) implies is_scalar(code) by {}
        }
        self.by_code = by_code;
        proof {
            assert forall|other: char|
                self@.contains_key(other) == old(self)@.insert(party, votes as nat).contains_key(
                    other,
                ) by {
                lemma_code_of_char(other);
            }
            assert forall|other: char| self@.contains_key(other) implies self@[other] == old(
                self,
            )@.insert(party, votes as nat)[other] by {
                lemma_code_of_char(other);
            }
            assert(self@ =~= old(self)@.insert(party, votes as nat));
        }
        previous
    }

    /// The votes of `party`, if any are recorded.
    pub fn get(&self, party: char) -> (votes: Option<u64>)
        ensures
            votes is Some <==> self@.contains_key(party),
            votes is Some ==> self@[party] == votes->0,
    {
        let code = party as u32;
        match self.by_code.get(&code) {
            Some(votes) => Some(*votes),
            None => None,
        }
    }

    /// Whether every party that has votes is among `parties`.
    pub fn all_listed(&self, parties: &Vec<char>) -> (all: bool)
        ensures
            all <==> forall|party: char| self@.contains_key(party) ==> parties@.contains(party),
    {
        proof {
            use_type_invariant(self);
        }
        let mut seen: HashSet<u32> = HashSet::new();
        let mut i: usize = 0;
        while i < parties.len()
            invariant
                i <= parties@.len(),
                seen@.finite(),
                forall|code: u32|
                    seen@.contains(code) <==> self.by_code@.contains_key(code) && exists|k: int|
                        0 <= k < i && #[trigger] parties@[k] as u32 == code,
            decreases parties@.len() - i,
        {
            let code = parties[i] as u32;
            if self.by_code.contains_key(&code) {
                seen.insert(code);
            }
            i += 1;
        }
        let all = seen.len() == self.by_code.len();
        proof {
            let voted = self.by_code@.dom();
            assert(seen@.subset_of(voted));
            if all {
                lemma_subset_equality(seen@, voted);
                assert forall|party: char| self@.contains_key(party) implies parties@.contains(
                    party,
                ) by {
                    assert(seen@.contains(party as u32));
                    let k = choose|k: int|
                        0 <= k < parties@.len() && #[trigger] parties@[k] as u32 == party as u32;
                    lemma_code_of_char(party);
                    lemma_code_of_char(parties@[k]);
                    assert(parties@[k] == party);
                }
            } else {
                assert(seen@ != voted);
                assert(!(seen@ =~= voted));
                let code = choose|code: u32| voted.contains(code) && !seen@.contains(code);
                let party = code as char;
                lemma_char_of_code(code);
                assert(self@.contains_key(party));
                if parties@.contains(party) {
                    let k = choose|k: int| 0 <= k < parties@.len() && parties@[k] == party;
                    assert(parties@[k] as u32 == code);
                }
            }
        }
        all
    }
}

} // verus!

//! The descending quotient sequence `n / 1, n / 2, n / 3, ...` of one entry,
//! drawn one value at a time.

use vstd::prelude::*;

verus! {

/// The quotient an entry with `votes` votes offers at `divisor` (floor division).
pub open spec fn quotient(votes: nat, divisor: nat) -> nat
    recommends
        divisor >= 1,
{
    votes / divisor
}

/// One past the largest `u64`: from this divisor on every quotient of a `u64` is zero.
pub const DIVISOR_CEILING: u128 = 0x1_0000_0000_0000_0000u128;

/// A cursor over the quotients of one entry.
///
/// The sequence never ends: the `k`-th value drawn is `votes / k`, and only the
/// values that are asked for are computed.
#[derive(Clone, Copy)]
pub struct Quotients {
    votes: u64,
    divisor: u128,
    drawn: Ghost<nat>,
}

impl Quotients {
    #[verifier::type_invariant]
    spec fn inv(&self) -> bool {
        &&& 1 <= self.divisor <= DIVISOR_CEILING
        &&& self.divisor < DIVISOR_CEILING ==> self.divisor == self.drawn@ + 1
        &&& self.divisor == DIVISOR_CEILING ==> self.drawn@ + 1 >= DIVISOR_CEILING
    }

    /// The vote total whose quotients the cursor yields.
    pub closed spec fn votes(&self) -> nat {
        self.votes as nat
    }

    /// How many quotients have been drawn so far.
    pub closed spec fn drawn(&self) -> nat {
        self.drawn@
    }

    /// The value that the next call of [`Quotients::next`] returns.
    pub open spec fn peek(&self) -> nat {
        quotient(self.votes(), self.drawn() + 1)
    }

    /// Draws the next quotient and advances the cursor by one divisor.
    pub fn next(&mut self) -> (q: u64)
        ensures
            q == old(self).peek(),
            final(self).votes() == old(self).votes(),
            final(self).drawn() == old(self).drawn() + 1,
    {
        proof {
            use_type_invariant(&*self);
        }
        let q: u128 = self.votes as u128 / self.divisor;
        let next_divisor: u128 = if self.divisor < DIVISOR_CEILING {
            self.divisor + 1
        } else {
            self.divisor
        };
        proof {
            lemma_quotient_vanishes(self.votes as nat, self.drawn@ + 1);
            lemma_quotient_vanishes(self.votes as nat, self.divisor as nat);
            lemma_quotient_bounded(self.votes as nat, self.divisor as nat);
        }
        *self = Quotients {
            votes: self.votes,
            divisor: next_divisor,
            drawn: Ghost((self.drawn@ + 1) as nat),
        };
        q as u64
    }
}

/// Starts the quotient sequence of an entry with `n` votes.
pub fn quotients_dhondts(n: u64) -> (cursor: Quotients)
    ensures
        cursor.votes() == n,
        cursor.drawn() == 0,
{
    Quotients { votes: n, divisor: 1, drawn: Ghost(0) }
}

/// A quotient never exceeds the votes it divides.
pub proof fn lemma_quotient_bounded(votes: nat, divisor: nat)
    requires
        divisor >= 1,
    ensures
        quotient(votes, divisor) <= votes,
{
    assert(votes / divisor <= votes) by (nonlinear_arith)
        requires
            divisor >= 1,
    ;
}

/// Once the divisor exceeds the votes, the quotient is zero.
pub proof fn lemma_quotient_vanishes(votes: nat, divisor: nat)
    ensures
        divisor > votes ==> quotient(votes, divisor) == 0,
{
    if divisor > votes {
        assert(votes / divisor == 0) by (nonlinear_arith)
            requires
                0 <= votes < divisor,
        ;
    }
}

/// A larger divisor never gives a larger quotient.
pub proof fn lemma_quotient_antitone(votes: nat, small: nat, large: nat)
    requires
        1 <= small <= large,
    ensures
        quotient(votes, large) <= quotient(votes, small),
{
    assert(votes / large <= votes / small) by (nonlinear_arith)
        requires
            1 <= small <= large,
            votes >= 0,
    ;
}

/// More votes never give a smaller quotient at the same divisor.
pub proof fn lemma_quotient_monotone(fewer: nat, more: nat, divisor: nat)
    requires
        fewer <= more,
        divisor >= 1,
    ensures
        quotient(fewer, divisor) <= quotient(more, divisor),
{
    assert(fewer / divisor <= more / divisor) by (nonlinear_arith)
        requires
            fewer <= more,
            divisor >= 1,
    ;
}

} // verus!

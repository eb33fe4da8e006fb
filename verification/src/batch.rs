//! Bookkeeping of one batch of annealing moves.
//!
//! A batch keeps drawing moves until `size_lot` of them have been accepted,
//! but gives up after `100 * size_lot` attempts (saturating at the largest
//! `usize`). Whether a move is accepted is decided by the caller.

use vstd::prelude::*;

verus! {

/// The attempt limit of a batch of `size_lot` moves: `size_lot * 100`,
/// saturating.
pub open spec fn attempt_limit(size_lot: nat) -> nat {
    if size_lot * 100 <= usize::MAX {
        size_lot * 100
    } else {
        usize::MAX as nat
    }
}

/// Progress of a batch: how many moves were tried and how many accepted.
pub struct BatchProgress {
    pub size_lot: usize,
    pub max_attempts: usize,
    pub accepted: usize,
    pub attempts: usize,
}

impl BatchProgress {
    /// The counts are consistent with the batch's limits.
    pub open spec fn wf(&self) -> bool {
        &&& self.max_attempts == attempt_limit(self.size_lot as nat)
        &&& self.accepted <= self.attempts <= self.max_attempts
        &&& self.accepted <= self.size_lot
    }

    /// Another move is to be tried: fewer than `size_lot` moves were
    /// accepted and the attempt limit is not reached.
    pub open spec fn open(&self) -> bool {
        self.accepted < self.size_lot && self.attempts < self.max_attempts
    }

    /// A batch of `size_lot` moves with nothing tried yet.
    pub fn new(size_lot: usize) -> (r: BatchProgress)
        ensures
            r.wf(),
            r.size_lot == size_lot,
            r.accepted == 0,
            r.attempts == 0,
            size_lot as int * 100 <= usize::MAX ==> r.max_attempts == size_lot as int * 100,
            size_lot as int * 100 > usize::MAX ==> r.max_attempts == usize::MAX,
    {
        let max_attempts = if size_lot <= usize::MAX / 100 {
            size_lot * 100
        } else {
            usize::MAX
        };
        BatchProgress { size_lot, max_attempts, accepted: 0, attempts: 0 }
    }

    /// Whether another move is to be tried.
    pub fn wants_another(&self) -> (r: bool)
        ensures
            r == self.open(),
    {
        self.accepted < self.size_lot && self.attempts < self.max_attempts
    }

    /// Counts one more attempt, and one more accepted move when `accepted`.
    pub fn record(&mut self, accepted: bool)
        requires
            old(self).wf(),
            old(self).open(),
        ensures
            final(self).wf(),
            final(self).size_lot == old(self).size_lot,
            final(self).attempts == old(self).attempts + 1,
            final(self).accepted == old(self).accepted + (if accepted {
                1int
            } else {
                0int
            }),
    {
        self.attempts = self.attempts + 1;
        if accepted {
            self.accepted = self.accepted + 1;
        }
    }
}

/// A batch ends: every attempt brings it closer to its attempt limit, so
/// after at most `100 * size_lot` attempts (saturating) no further move is
/// tried, and it never accepts more than `size_lot` moves.
pub proof fn lemma_batch_ends(b: BatchProgress)
    requires
        b.wf(),
    ensures
        b.attempts >= attempt_limit(b.size_lot as nat) ==> !b.open(),
        b.accepted <= b.size_lot,
        b.open() ==> attempt_limit(b.size_lot as nat) - (b.attempts + 1) < attempt_limit(
            b.size_lot as nat,
        ) - b.attempts,
{
}

/// The attempt limit is a hundred attempts per move of the lot, and the
/// largest `usize` when that product does not fit: it is at least the lot
/// itself, grows with the lot, and a lot of one more move allows a hundred
/// more attempts unless the limit saturates.
pub proof fn lemma_attempt_limit_is_a_hundred_per_move(size_lot: nat, larger: nat)
    requires
        size_lot <= larger,
    ensures
        size_lot * 100 <= usize::MAX ==> attempt_limit(size_lot) == size_lot * 100,
        size_lot * 100 > usize::MAX ==> attempt_limit(size_lot) == usize::MAX,
        attempt_limit(size_lot) <= attempt_limit(larger),
        size_lot <= usize::MAX ==> size_lot <= attempt_limit(size_lot),
        (size_lot + 1) * 100 <= usize::MAX ==> attempt_limit(size_lot + 1) == attempt_limit(size_lot)
            + 100,
{
}

} // verus!

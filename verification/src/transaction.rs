//! Correlation identifiers for outstanding queries.

use vstd::prelude::*;

verus! {

/// Identifies one query and the response that answers it.
pub type TransactionId = u32;

/// Hands out transaction identifiers by counting upwards, wrapping at the end of the range.
pub struct TransactionIdGenerator {
    next_id: TransactionId,
}

impl TransactionIdGenerator {
    /// The identifier that was handed out last, or zero if none was.
    pub closed spec fn last_id(&self) -> TransactionId {
        self.next_id
    }

    /// The successor of `id`, wrapping from the largest identifier to zero.
    pub open spec fn successor(id: TransactionId) -> TransactionId {
        if id == u32::MAX {
            0
        } else {
            (id + 1) as u32
        }
    }

    /// The identifier that is handed out `count` identifiers after `id`.
    pub open spec fn nth_after(id: TransactionId, count: nat) -> TransactionId {
        ((id + count) % 0x1_0000_0000) as u32
    }

    /// The identifier after the `count`-th is the one after that many and one more.
    pub proof fn lemma_nth_after_step(id: TransactionId, count: nat)
        ensures
            Self::nth_after(id, 0) == id,
            Self::nth_after(id, count + 1) == Self::successor(Self::nth_after(id, count)),
    {
    }

    pub fn new() -> (generator: TransactionIdGenerator)
        ensures
            generator.last_id() == 0,
    {
        TransactionIdGenerator { next_id: 0 }
    }

    /// Hands out the next identifier: one more than the last, wrapping on overflow.
    pub fn generate(&mut self) -> (id: TransactionId)
        ensures
            id == Self::successor(old(self).last_id()),
            final(self).last_id() == id,
    {
        self.next_id = self.next_id.wrapping_add(1);
        self.next_id
    }
}

} // verus!

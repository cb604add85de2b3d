//! Per-query memory tracking and budget enforcement.
//!
//! The [`MemoryTracker`] enforces per-query memory limits. Query operators
//! call `try_allocate` before materializing intermediate results; if the
//! cumulative allocation exceeds the configured budget, the query fails with
//! [`QueryError::QueryMemoryExceeded`] rather than exhausting memory.
use vstd::prelude::*;

use crate::query::error::QueryError;

verus! {

/// Tracks memory allocations against a per-query budget.
#[derive(Debug)]
pub struct MemoryTracker {
    /// Maximum allowed allocation in bytes.
    budget: usize,
    /// Current allocation in bytes.
    allocated: usize,
}

impl MemoryTracker {
    /// The budget in bytes.
    pub closed spec fn limit(&self) -> usize {
        self.budget
    }

    /// The bytes in use.
    pub closed spec fn used(&self) -> usize {
        self.allocated
    }

    /// What is in use never exceeds the budget.
    #[verifier::type_invariant]
    spec fn within_budget(&self) -> bool {
        self.allocated <= self.budget
    }

    /// An allocation of `bytes` still fits.
    pub open spec fn fits(&self, bytes: int) -> bool {
        self.used() + bytes <= self.limit()
    }

    /// Create a new tracker with the given memory budget in bytes.
    pub fn new(budget_bytes: usize) -> (r: Self)
        ensures
            r.limit() == budget_bytes,
            r.used() == 0,
    {
        MemoryTracker { budget: budget_bytes, allocated: 0 }
    }

    /// Try to allocate `bytes` from the budget.
    ///
    /// Fails with [`QueryError::QueryMemoryExceeded`], and changes nothing, if
    /// the budget would be exceeded.
    pub fn try_allocate(&mut self, bytes: usize) -> (r: Result<(), QueryError>)
        ensures
            final(self).limit() == old(self).limit(),
            old(self).fits(bytes as int) ==> r is Ok && final(self).used() == old(self).used()
                + bytes,
            !old(self).fits(bytes as int) ==> r == Err::<(), QueryError>(
                QueryError::QueryMemoryExceeded {
                    requested: bytes,
                    allocated: old(self).used(),
                    budget: old(self).limit(),
                },
            ) && final(self).used() == old(self).used(),
    {
        proof {
            use_type_invariant(&*self);
        }
        if bytes > self.budget - self.allocated {
            return Err(
                QueryError::QueryMemoryExceeded {
                    requested: bytes,
                    allocated: self.allocated,
                    budget: self.budget,
                },
            );
        }
        self.allocated = self.allocated + bytes;
        Ok(())
    }

    /// Release `bytes` back to the budget.
    pub fn deallocate(&mut self, bytes: usize)
        requires
            bytes <= old(self).used(),
        ensures
            final(self).limit() == old(self).limit(),
            final(self).used() == old(self).used() - bytes,
    {
        proof {
            use_type_invariant(&*self);
        }
        self.allocated = self.allocated - bytes;
    }

    /// Returns the current number of allocated bytes.
    pub fn allocated(&self) -> (r: usize)
        ensures
            r == self.used(),
            r <= self.limit(),
    {
        proof {
            use_type_invariant(self);
        }
        self.allocated
    }

    /// Returns the configured budget in bytes.
    pub fn budget(&self) -> (r: usize)
        ensures
            r == self.limit(),
    {
        self.budget
    }

    /// Returns the number of bytes remaining before the budget is exhausted.
    pub fn remaining(&self) -> (r: usize)
        ensures
            r == self.limit() - self.used(),
    {
        proof {
            use_type_invariant(self);
        }
        self.budget - self.allocated
    }
}

/// A number of bytes, or as many as can be counted.
pub open spec fn countable(bytes: int) -> int {
    if bytes > usize::MAX {
        usize::MAX as int
    } else {
        bytes
    }
}

/// The tracker after `bytes` bytes were allocated.
pub open spec fn is_charged(before: &MemoryTracker, bytes: int, after: &MemoryTracker) -> bool {
    after.limit() == before.limit() && after.used() == before.used() + bytes
}

/// What is allocated and released again leaves the budget as it was.
pub proof fn released_bytes_are_available(
    before: &MemoryTracker,
    held: &MemoryTracker,
    after: &MemoryTracker,
    bytes: usize,
    wanted: int,
)
    requires
        is_charged(before, bytes as int, held),
        is_charged(after, bytes as int, held),
    ensures
        after.used() == before.used(),
        after.fits(wanted) == before.fits(wanted),
{
}

} // verus!

//! The degenerate path: records with no fields.
//!
//! A record type without fields needs no backing allocation at any
//! capacity — the layout planner yields a total size of zero for every
//! capacity (see `lemma_zero_fields_no_allocation`) — so the whole engine
//! collapses to a marker carrying nothing but a logical length.  Every
//! capacity transition is a no-op on memory and only the length counter
//! ever changes.

use vstd::prelude::*;

verus! {

/// Storage for a record type with no fields: no allocation, only the
/// logical number of records currently stored.
pub struct ZstStorage {
    /// The number of records logically stored.
    pub len: usize,
}

impl ZstStorage {
    /// Creates the empty degenerate storage.
    pub fn new() -> (s: Self)
        ensures
            s.len == 0,
    {
        Self { len: 0 }
    }

    /// Reserving capacity needs no memory: nothing changes.
    pub fn allocate(&mut self, capacity: usize)
        ensures
            *final(self) == *old(self),
    {
        let _ = capacity;
    }

    /// Growing needs no relocation: nothing changes.
    pub fn grow(&mut self, old_capacity: usize, new_capacity: usize)
        requires
            old_capacity < new_capacity,
        ensures
            *final(self) == *old(self),
    {
        let _ = old_capacity;
        let _ = new_capacity;
    }

    /// Shrinking needs no relocation: nothing changes.
    pub fn shrink(&mut self, old_capacity: usize, new_capacity: usize)
        requires
            new_capacity < old_capacity,
        ensures
            *final(self) == *old(self),
    {
        let _ = old_capacity;
        let _ = new_capacity;
    }

    /// There is never an allocation to release: nothing changes.
    pub fn deallocate(&mut self, capacity: usize)
        ensures
            *final(self) == *old(self),
    {
        let _ = capacity;
    }

    /// Records the new logical length; the only state this storage has.
    pub fn set_len(&mut self, len: usize)
        ensures
            final(self).len == len,
    {
        self.len = len;
    }
}

} // verus!

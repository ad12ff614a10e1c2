//! The heap-growth controller: how much the old generation and the large
//! object space may commit together.

use vstd::prelude::*;

verus! {

/// The sizes that bound the growth of the heap.
#[derive(Copy, Clone, PartialEq, Eq, Structural, Debug)]
pub struct HeapConfig {
    /// The bytes that the old generation and the large object space hold.
    pub old_size: usize,
    /// The most that they may hold.
    pub old_limit: usize,
}

impl HeapConfig {
    /// Whether `size` more bytes stay within the limit.
    pub open spec fn can_grow_old(self, size: int) -> bool {
        self.old_size + size <= self.old_limit
    }

    /// A controller with nothing held yet.
    pub fn new(old_limit: usize) -> (r: HeapConfig)
        ensures
            r == (HeapConfig { old_size: 0, old_limit }),
    {
        HeapConfig { old_size: 0, old_limit }
    }

    /// Asks for `size` more bytes: granted, and counted, where they stay
    /// within the limit; refused, with nothing changed, otherwise.
    pub fn grow_old(&mut self, size: usize) -> (r: bool)
        ensures
            r == old(self).can_grow_old(size as int),
            r ==> *final(self) == (HeapConfig {
                old_size: (old(self).old_size + size) as usize,
                old_limit: old(self).old_limit,
            }),
            !r ==> *final(self) == *old(self),
    {
        if size <= self.old_limit && self.old_size <= self.old_limit - size {
            self.old_size += size;
            true
        } else {
            false
        }
    }
}

} // verus!

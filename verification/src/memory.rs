//! Allocation accounting.
use vstd::prelude::*;

verus! {

/// Bytes allocated during the current frame.
pub struct AllocationTracker {
    frame_allocations: usize,
}

impl AllocationTracker {
    pub closed spec fn spec_frame_allocations(&self) -> usize {
        self.frame_allocations
    }

    pub fn new() -> (t: Self)
        ensures
            t.spec_frame_allocations() == 0,
    {
        AllocationTracker { frame_allocations: 0 }
    }

    /// Count `size` more bytes. Excluded: a total that would overflow.
    pub fn record_allocation(&mut self, size: usize)
        requires
            old(self).spec_frame_allocations() + size <= usize::MAX,
        ensures
            final(self).spec_frame_allocations() == old(self).spec_frame_allocations() + size,
    {
        self.frame_allocations = self.frame_allocations + size;
    }

    /// Start a new frame at zero bytes.
    pub fn reset_frame(&mut self)
        ensures
            final(self).spec_frame_allocations() == 0,
    {
        self.frame_allocations = 0;
    }

    pub fn frame_allocations(&self) -> (n: usize)
        ensures
            n == self.spec_frame_allocations(),
    {
        self.frame_allocations
    }
}

} // verus!
